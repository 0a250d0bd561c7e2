//! The matching state: the subject, the pattern, the saved group marks, the stack of
//! match contexts and the stacks of the repeat operations; and the model that specifies it.
use vstd::prelude::*;
use crate::constants::SreFlag;
use crate::strdrive::{StrDrive, StrModel};

verus! {

/// What a context does when it is resumed after its child context has finished.
#[derive(Clone, Copy, Debug, PartialEq, Eq, Structural)]
pub enum Handler {
    AssertDone,
    AssertNotDone,
    BranchCreate,
    BranchCallback,
    MinRepeatOneCreate,
    MinRepeatOneCallback,
    RepeatOneCreate,
    RepeatOneCallback,
    RepeatDone,
    MinUntilBody,
    MinUntilTail,
}

/// A point of the match: where it stands in the subject and in the pattern.
#[derive(Clone, Copy, Debug)]
pub struct MatchContext {
    pub string_position: usize,
    pub string_offset: usize,
    pub code_position: usize,
    pub has_matched: Option<bool>,
    pub toplevel: bool,
    pub handler: Option<Handler>,
}

#[derive(Clone, Copy, Debug)]
pub struct BranchContext {
    pub branch_offset: usize,
}

#[derive(Clone, Copy, Debug)]
pub struct MinRepeatOneContext {
    pub count: usize,
    pub min_count: usize,
    pub max_count: usize,
}

#[derive(Clone, Copy, Debug)]
pub struct RepeatOneContext {
    pub count: usize,
    pub min_count: usize,
    pub max_count: usize,
    pub following_literal: Option<u32>,
}

#[derive(Clone, Copy, Debug)]
pub struct RepeatContext {
    pub count: isize,
    pub min_count: usize,
    pub max_count: usize,
    pub code_position: usize,
    pub last_position: usize,
}

#[derive(Clone, Copy, Debug)]
pub struct MinUntilContext {
    pub count: isize,
    pub save_repeat_ctx: Option<RepeatContext>,
    pub save_last_position: usize,
}

#[derive(Clone, Copy, Debug)]
pub struct MaxUntilContext {
    pub count: isize,
    pub save_last_position: usize,
}

/// The state of a match or search of a compiled pattern over a subject.
#[derive(Debug)]
pub struct State<'a> {
    pub string: StrDrive<'a>,
    pub start: usize,
    pub end: usize,
    pub _flags: SreFlag,
    pub pattern_codes: &'a [u32],
    pub marks: Vec<Option<usize>>,
    pub lastindex: isize,
    pub marks_stack: Vec<(Vec<Option<usize>>, isize)>,
    pub context_stack: Vec<MatchContext>,
    pub branch_stack: Vec<BranchContext>,
    pub min_repeat_one_stack: Vec<MinRepeatOneContext>,
    pub repeat_one_stack: Vec<RepeatOneContext>,
    pub repeat_stack: Vec<RepeatContext>,
    pub min_until_stack: Vec<MinUntilContext>,
    pub max_until_stack: Vec<MaxUntilContext>,
    pub string_position: usize,
    pub popped_context: Option<MatchContext>,
    pub has_matched: bool,
    pub match_all: bool,
    pub must_advance: bool,
}

/// The part of a state that matching reads and never changes.
pub struct Env {
    pub string: StrModel,
    pub flags: SreFlag,
    pub start: usize,
    pub end: usize,
    pub pattern: Seq<u32>,
    pub match_all: bool,
    pub must_advance: bool,
}

/// The part of a state that matching changes.
pub struct Machine {
    pub marks: Seq<Option<usize>>,
    pub lastindex: isize,
    pub marks_stack: Seq<(Seq<Option<usize>>, isize)>,
    pub context_stack: Seq<MatchContext>,
    pub branch_stack: Seq<BranchContext>,
    pub min_repeat_one_stack: Seq<MinRepeatOneContext>,
    pub repeat_one_stack: Seq<RepeatOneContext>,
    pub repeat_stack: Seq<RepeatContext>,
    pub min_until_stack: Seq<MinUntilContext>,
    pub max_until_stack: Seq<MaxUntilContext>,
    pub string_position: usize,
    pub popped_context: Option<MatchContext>,
    pub has_matched: bool,
}

/// A machine together with the context being run and the child context it asks for.
pub struct Drive {
    pub m: Machine,
    pub ctx: MatchContext,
    pub next_ctx: Option<MatchContext>,
}

pub open spec fn saved_marks_view(s: Seq<(Vec<Option<usize>>, isize)>) -> Seq<(Seq<Option<usize>>, isize)> {
    s.map_values(|p: (Vec<Option<usize>>, isize)| (p.0@, p.1))
}

impl<'a> State<'a> {
    pub open spec fn env(&self) -> Env {
        Env {
            string: self.string@,
            flags: self._flags,
            start: self.start,
            end: self.end,
            pattern: self.pattern_codes@,
            match_all: self.match_all,
            must_advance: self.must_advance,
        }
    }

    pub open spec fn machine(&self) -> Machine {
        Machine {
            marks: self.marks@,
            lastindex: self.lastindex,
            marks_stack: saved_marks_view(self.marks_stack@),
            context_stack: self.context_stack@,
            branch_stack: self.branch_stack@,
            min_repeat_one_stack: self.min_repeat_one_stack@,
            repeat_one_stack: self.repeat_one_stack@,
            repeat_stack: self.repeat_stack@,
            min_until_stack: self.min_until_stack@,
            max_until_stack: self.max_until_stack@,
            string_position: self.string_position,
            popped_context: self.popped_context,
            has_matched: self.has_matched,
        }
    }
}

/* ---------------- group marks ---------------- */

/// Records `position` as mark `mark_nr`; an odd mark closes group `mark_nr / 2 + 1`, which
/// becomes the last group closed. `None` where the mark number overflows (the engine reads
/// mark numbers from `u32` codes, which stay below both bounds on 64-bit targets).
pub open spec fn spec_set_mark(m: Machine, mark_nr: usize, position: usize) -> Option<Machine> {
    if mark_nr + 1 > usize::MAX || mark_nr > isize::MAX {
        None
    } else {
        let lastindex = if mark_nr & 1 != 0 {
            (mark_nr / 2 + 1) as isize
        } else {
            m.lastindex
        };
        let marks = if mark_nr >= m.marks.len() {
            m.marks + Seq::new((mark_nr + 1 - m.marks.len()) as nat, |i: int| None::<usize>)
        } else {
            m.marks
        };
        Some(Machine { lastindex, marks: marks.update(mark_nr as int, Some(position)), ..m })
    }
}

/// The start and end marks of group `group_index`; `None` where the index overflows.
pub open spec fn spec_get_marks(m: Machine, group_index: usize) -> Option<
    (Option<usize>, Option<usize>),
> {
    if 2 * group_index + 1 > usize::MAX {
        None
    } else if 2 * group_index + 1 < m.marks.len() {
        Some((m.marks[2 * group_index], m.marks[2 * group_index + 1]))
    } else {
        Some((None, None))
    }
}

pub open spec fn spec_marks_push(m: Machine) -> Machine {
    Machine { marks_stack: m.marks_stack.push((m.marks, m.lastindex)), ..m }
}

pub open spec fn spec_marks_pop(m: Machine) -> Option<Machine> {
    if m.marks_stack.len() == 0 {
        None
    } else {
        Some(
            Machine {
                marks: m.marks_stack.last().0,
                lastindex: m.marks_stack.last().1,
                marks_stack: m.marks_stack.drop_last(),
                ..m
            },
        )
    }
}

pub open spec fn spec_marks_pop_keep(m: Machine) -> Option<Machine> {
    if m.marks_stack.len() == 0 {
        None
    } else {
        Some(Machine { marks: m.marks_stack.last().0, lastindex: m.marks_stack.last().1, ..m })
    }
}

pub open spec fn spec_marks_pop_discard(m: Machine) -> Machine {
    if m.marks_stack.len() == 0 {
        m
    } else {
        Machine { marks_stack: m.marks_stack.drop_last(), ..m }
    }
}

fn clone_marks(v: &Vec<Option<usize>>) -> (r: Vec<Option<usize>>)
    ensures
        r@ == v@,
{
    let mut r: Vec<Option<usize>> = Vec::new();
    let mut i: usize = 0;
    while i < v.len()
        invariant
            i <= v@.len(),
            r@ == v@.subrange(0, i as int),
        decreases v@.len() - i,
    {
        r.push(v[i]);
        i += 1;
        assert(r@ =~= v@.subrange(0, i as int));
    }
    assert(v@.subrange(0, v@.len() as int) =~= v@);
    r
}

impl<'a> State<'a> {
    pub(crate) fn set_mark(&mut self, mark_nr: usize, position: usize)
        requires
            spec_set_mark(old(self).machine(), mark_nr, position) is Some,
        ensures
            final(self).env() == old(self).env(),
            final(self).string == old(self).string,
            final(self).pattern_codes == old(self).pattern_codes,
            Some(final(self).machine()) == spec_set_mark(old(self).machine(), mark_nr, position),
    {
        if mark_nr & 1 != 0 {
            self.lastindex = mark_nr as isize / 2 + 1;
        }
        let ghost old_marks = self.marks@;
        let ghost pre = *self;
        if mark_nr >= self.marks.len() {
            while self.marks.len() < mark_nr + 1
                invariant
                    self.env() == pre.env(),
                    self.string == pre.string,
                    self.pattern_codes == pre.pattern_codes,
                    self.machine() == (Machine { marks: self.marks@, ..pre.machine() }),
                    old_marks == pre.marks@,
                    mark_nr + 1 <= usize::MAX,
                    self.marks@.len() <= mark_nr + 1,
                    old_marks.len() <= self.marks@.len(),
                    self.marks@ =~= old_marks + Seq::new(
                        (self.marks@.len() - old_marks.len()) as nat,
                        |i: int| None::<usize>,
                    ),
                decreases mark_nr + 1 - self.marks@.len(),
            {
                self.marks.push(None);
            }
        }
        self.marks.set(mark_nr, Some(position));
    }

    pub(crate) fn get_marks(&self, group_index: usize) -> (r: (Option<usize>, Option<usize>))
        requires
            spec_get_marks(self.machine(), group_index) is Some,
        ensures
            Some(r) == spec_get_marks(self.machine(), group_index),
    {
        let marks_index = 2 * group_index;
        if marks_index + 1 < self.marks.len() {
            (self.marks[marks_index], self.marks[marks_index + 1])
        } else {
            (None, None)
        }
    }

    pub(crate) fn marks_push(&mut self)
        ensures
            final(self).env() == old(self).env(),
            final(self).string == old(self).string,
            final(self).pattern_codes == old(self).pattern_codes,
            final(self).machine() == spec_marks_push(old(self).machine()),
    {
        let saved = clone_marks(&self.marks);
        self.marks_stack.push((saved, self.lastindex));
        assert(saved_marks_view(self.marks_stack@) =~= saved_marks_view(
            old(self).marks_stack@,
        ).push((old(self).marks@, old(self).lastindex)));
    }

    pub(crate) fn marks_pop(&mut self)
        requires
            spec_marks_pop(old(self).machine()) is Some,
        ensures
            final(self).env() == old(self).env(),
            final(self).string == old(self).string,
            final(self).pattern_codes == old(self).pattern_codes,
            Some(final(self).machine()) == spec_marks_pop(old(self).machine()),
    {
        let (marks, lastindex) = self.marks_stack.pop().unwrap();
        self.marks = marks;
        self.lastindex = lastindex;
        assert(saved_marks_view(self.marks_stack@) =~= saved_marks_view(
            old(self).marks_stack@,
        ).drop_last());
    }

    pub(crate) fn marks_pop_keep(&mut self)
        requires
            spec_marks_pop_keep(old(self).machine()) is Some,
        ensures
            final(self).env() == old(self).env(),
            final(self).string == old(self).string,
            final(self).pattern_codes == old(self).pattern_codes,
            Some(final(self).machine()) == spec_marks_pop_keep(old(self).machine()),
    {
        let n = self.marks_stack.len();
        let marks = clone_marks(&self.marks_stack[n - 1].0);
        let lastindex = self.marks_stack[n - 1].1;
        self.marks = marks;
        self.lastindex = lastindex;
    }

    pub(crate) fn marks_pop_discard(&mut self)
        ensures
            final(self).env() == old(self).env(),
            final(self).string == old(self).string,
            final(self).pattern_codes == old(self).pattern_codes,
            final(self).machine() == spec_marks_pop_discard(old(self).machine()),
    {
        self.marks_stack.pop();
        assert(old(self).marks_stack@.len() > 0 ==> saved_marks_view(self.marks_stack@)
            =~= saved_marks_view(old(self).marks_stack@).drop_last());
    }
}

/* ---------------- laws of the group marks ---------------- */

/// Marks read back as written: after recording the start and the end of group `g`, the
/// group's marks are the two positions, and `g` is the last group closed.
pub proof fn lemma_group_marks_read_back(m: Machine, g: usize, p1: usize, p2: usize)
    requires
        2 * g + 1 <= isize::MAX,
    ensures
        ({
            let m1 = spec_set_mark(m, (2 * g) as usize, p1).unwrap();
            let m2 = spec_set_mark(m1, (2 * g + 1) as usize, p2).unwrap();
            &&& spec_set_mark(m, (2 * g) as usize, p1) is Some
            &&& spec_set_mark(m1, (2 * g + 1) as usize, p2) is Some
            &&& spec_get_marks(m2, g) == Some((Some(p1), Some(p2)))
            &&& m2.lastindex == g + 1
        }),
{
    let k1 = (2 * g) as usize;
    let k2 = (2 * g + 1) as usize;
    assert(k1 & 1 == 0) by (bit_vector)
        requires
            k1 == 2 * g,
    ;
    assert(k2 & 1 != 0) by (bit_vector)
        requires
            k2 == 2 * g + 1,
    ;
}

/// Recording a mark leaves the other marks as they were.
pub proof fn lemma_set_mark_keeps_others(m: Machine, mark_nr: usize, position: usize, k: int)
    requires
        spec_set_mark(m, mark_nr, position) is Some,
        0 <= k < m.marks.len(),
        k != mark_nr,
    ensures
        spec_set_mark(m, mark_nr, position).unwrap().marks[k] == m.marks[k],
{
}

/// Saving the marks and restoring them gives back the machine as it was, whatever marks
/// were recorded in between.
pub proof fn lemma_marks_restore(m: Machine, mark_nr: usize, position: usize)
    requires
        spec_set_mark(spec_marks_push(m), mark_nr, position) is Some,
    ensures
        spec_marks_pop(spec_set_mark(spec_marks_push(m), mark_nr, position).unwrap()) == Some(m),
        spec_marks_pop_keep(spec_set_mark(spec_marks_push(m), mark_nr, position).unwrap()) == Some(
            spec_marks_push(m),
        ),
{
    let m1 = spec_set_mark(spec_marks_push(m), mark_nr, position).unwrap();
    assert(m1.marks_stack.drop_last() =~= m.marks_stack);
}

/// A call on the group marks: `set_mark`, `marks_pop_keep`, `marks_push`, `marks_pop` or
/// `marks_pop_discard`.
pub enum MarksOp {
    SetMark(usize, usize),
    PopKeep,
    Push,
    Pop,
    PopDiscard,
}

/// What one call on the group marks makes of the machine; `None` where it panics.
pub open spec fn spec_marks_op(m: Machine, op: MarksOp) -> Option<Machine> {
    match op {
        MarksOp::SetMark(mark_nr, position) => spec_set_mark(m, mark_nr, position),
        MarksOp::PopKeep => spec_marks_pop_keep(m),
        MarksOp::Push => Some(spec_marks_push(m)),
        MarksOp::Pop => spec_marks_pop(m),
        MarksOp::PopDiscard => Some(spec_marks_pop_discard(m)),
    }
}

/// What a sequence of calls on the group marks makes of the machine.
pub open spec fn spec_marks_ops(m: Machine, ops: Seq<MarksOp>) -> Option<Machine>
    decreases ops.len(),
{
    if ops.len() == 0 {
        Some(m)
    } else {
        match spec_marks_op(m, ops[0]) {
            None => None,
            Some(m1) => spec_marks_ops(m1, ops.drop_first()),
        }
    }
}

/// The pushes and pops of `ops` come in balanced pairs, starting `depth` pushes deep: no pop
/// takes more than was pushed, and every push is popped by the end.
pub open spec fn marks_balanced(ops: Seq<MarksOp>, depth: nat) -> bool
    decreases ops.len(),
{
    if ops.len() == 0 {
        depth == 0
    } else {
        match ops[0] {
            MarksOp::Push => marks_balanced(ops.drop_first(), depth + 1),
            MarksOp::Pop | MarksOp::PopDiscard => depth > 0 && marks_balanced(
                ops.drop_first(),
                (depth - 1) as nat,
            ),
            _ => marks_balanced(ops.drop_first(), depth),
        }
    }
}

proof fn lemma_marks_ops_keep_base(
    m: Machine,
    ops: Seq<MarksOp>,
    depth: nat,
    base: Seq<(Seq<Option<usize>>, isize)>,
)
    requires
        marks_balanced(ops, depth),
        m.marks_stack.len() == base.len() + depth,
        m.marks_stack.subrange(0, base.len() as int) == base,
        spec_marks_ops(m, ops) is Some,
    ensures
        spec_marks_ops(m, ops).unwrap().marks_stack == base,
        spec_marks_ops(m, ops).unwrap() == (Machine {
            marks: spec_marks_ops(m, ops).unwrap().marks,
            lastindex: spec_marks_ops(m, ops).unwrap().lastindex,
            marks_stack: spec_marks_ops(m, ops).unwrap().marks_stack,
            ..m
        }),
    decreases ops.len(),
{
    if ops.len() == 0 {
        assert(m.marks_stack =~= base);
    } else {
        let m1 = spec_marks_op(m, ops[0]).unwrap();
        let d1: nat = match ops[0] {
            MarksOp::Push => depth + 1,
            MarksOp::Pop | MarksOp::PopDiscard => (depth - 1) as nat,
            _ => depth,
        };
        assert(m1.marks_stack.subrange(0, base.len() as int) =~= base);
        lemma_marks_ops_keep_base(m1, ops.drop_first(), d1, base);
    }
}

/// Marks saved with `marks_push` come back with `marks_pop`, whatever calls came in between:
/// marks recorded, saved marks restored with `marks_pop_keep`, and pushes and pops in
/// balanced pairs. The machine comes back as it was before the push.
pub proof fn lemma_marks_restore_after(m: Machine, ops: Seq<MarksOp>)
    requires
        marks_balanced(ops, 0),
        spec_marks_ops(spec_marks_push(m), ops) is Some,
    ensures
        spec_marks_pop(spec_marks_ops(spec_marks_push(m), ops).unwrap()) == Some(m),
{
    let base = m.marks_stack.push((m.marks, m.lastindex));
    assert(spec_marks_push(m).marks_stack.subrange(0, base.len() as int) =~= base);
    lemma_marks_ops_keep_base(spec_marks_push(m), ops, 0, base);
    assert(base.drop_last() =~= m.marks_stack);
}

} // verus!
