//! Reading and moving a match context: the pattern code and subject character at its
//! position, position assertions, and the child contexts it asks for.
use vstd::prelude::*;
use crate::state::{State, Env, Machine, Drive, MatchContext, Handler};
use crate::chars::{
    spec_is_linebreak, is_linebreak, spec_is_word, is_word, spec_is_loc_word, is_loc_word,
    spec_is_uni_word, is_uni_word,
};

verus! {

/// A state together with the context being run and the child context it asks for.
pub struct StateContext<'a> {
    pub state: State<'a>,
    pub ctx: MatchContext,
    pub next_ctx: Option<MatchContext>,
}

impl<'a> StateContext<'a> {
    pub open spec fn dv(&self) -> Drive {
        Drive { m: self.state.machine(), ctx: self.ctx, next_ctx: self.next_ctx }
    }
}

/// `post` is what an operation whose model gives `r` makes of `pre`: the same subject and
/// pattern, and the drive that the model gives.
pub open spec fn steps_to(pre: StateContext, post: StateContext, r: Option<Drive>) -> bool {
    &&& post.state.env() == pre.state.env()
    &&& post.state.string == pre.state.string
    &&& post.state.pattern_codes == pre.state.pattern_codes
    &&& r == Some(post.dv())
}

/// The word test of the boundary assertions.
#[derive(Clone, Copy, Debug, PartialEq, Eq, Structural)]
pub enum WordKind {
    Ascii,
    Locale,
    Unicode,
}

pub open spec fn spec_word(kind: WordKind, ch: u32) -> bool {
    match kind {
        WordKind::Ascii => spec_is_word(ch),
        WordKind::Locale => spec_is_loc_word(ch),
        WordKind::Unicode => spec_is_uni_word(ch),
    }
}

pub fn word(kind: WordKind, ch: u32) -> (r: bool)
    ensures
        r == spec_word(kind, ch),
{
    match kind {
        WordKind::Ascii => is_word(ch),
        WordKind::Locale => is_loc_word(ch),
        WordKind::Unicode => is_uni_word(ch),
    }
}

/* ---------------- the model of the context operations ---------------- */

pub open spec fn spec_peek_code(e: Env, c: MatchContext, peek: usize) -> Option<u32> {
    if c.code_position + peek < e.pattern.len() {
        Some(e.pattern[c.code_position + peek])
    } else {
        None
    }
}

pub open spec fn spec_peek_char(e: Env, c: MatchContext) -> Option<u32> {
    e.string.peek(c.string_offset)
}

pub open spec fn spec_back_peek_char(e: Env, c: MatchContext) -> Option<u32> {
    e.string.back_peek(c.string_offset)
}

pub open spec fn spec_skip_char(e: Env, c: MatchContext, k: usize) -> Option<MatchContext> {
    match e.string.offset(c.string_offset, k) {
        None => None,
        Some(o) => if c.string_position + k > usize::MAX {
            None
        } else {
            Some(
                MatchContext {
                    string_offset: o,
                    string_position: (c.string_position + k) as usize,
                    ..c
                },
            )
        },
    }
}

pub open spec fn spec_back_skip_char(e: Env, c: MatchContext, k: usize) -> Option<MatchContext> {
    if c.string_position < k {
        None
    } else {
        match e.string.back_offset(c.string_offset, k) {
            None => None,
            Some(o) => Some(
                MatchContext {
                    string_position: (c.string_position - k) as usize,
                    string_offset: o,
                    ..c
                },
            ),
        }
    }
}

pub open spec fn spec_skip_code(c: MatchContext, k: usize) -> Option<MatchContext> {
    if c.code_position + k > usize::MAX {
        None
    } else {
        Some(MatchContext { code_position: (c.code_position + k) as usize, ..c })
    }
}

/// Moves past an operation whose length (less one) is the code at offset `peek`.
pub open spec fn spec_skip_code_from(e: Env, c: MatchContext, peek: usize) -> Option<MatchContext> {
    match spec_peek_code(e, c, peek) {
        None => None,
        Some(v) => if v + 1 > usize::MAX {
            None
        } else {
            spec_skip_code(c, (v + 1) as usize)
        },
    }
}

pub open spec fn spec_remaining_chars(e: Env, c: MatchContext) -> Option<usize> {
    if e.end < c.string_position {
        None
    } else {
        Some((e.end - c.string_position) as usize)
    }
}

pub open spec fn spec_remaining_codes(e: Env, c: MatchContext) -> Option<usize> {
    if e.pattern.len() < c.code_position {
        None
    } else {
        Some((e.pattern.len() - c.code_position) as usize)
    }
}

pub open spec fn spec_at_beginning(c: MatchContext) -> bool {
    c.string_position == 0
}

pub open spec fn spec_at_end(e: Env, c: MatchContext) -> bool {
    c.string_position == e.end
}

pub open spec fn spec_at_linebreak(e: Env, c: MatchContext) -> Option<bool> {
    if spec_at_end(e, c) {
        Some(false)
    } else {
        match spec_peek_char(e, c) {
            None => None,
            Some(ch) => Some(spec_is_linebreak(ch)),
        }
    }
}

/// The word test of the char before the context (false at the beginning).
pub open spec fn spec_word_before(e: Env, c: MatchContext, kind: WordKind) -> Option<bool> {
    if spec_at_beginning(c) {
        Some(false)
    } else {
        match spec_back_peek_char(e, c) {
            None => None,
            Some(ch) => Some(spec_word(kind, ch)),
        }
    }
}

/// The word test of the char at the context (false at the end).
pub open spec fn spec_word_after(e: Env, c: MatchContext, kind: WordKind) -> Option<bool> {
    if spec_at_end(e, c) {
        Some(false)
    } else {
        match spec_peek_char(e, c) {
            None => None,
            Some(ch) => Some(spec_word(kind, ch)),
        }
    }
}

pub open spec fn spec_at_boundary(e: Env, c: MatchContext, kind: WordKind) -> Option<bool> {
    if spec_at_beginning(c) && spec_at_end(e, c) {
        Some(false)
    } else {
        match (spec_word_before(e, c, kind), spec_word_after(e, c, kind)) {
            (Some(that), Some(this)) => Some(this != that),
            _ => None,
        }
    }
}

pub open spec fn spec_at_non_boundary(e: Env, c: MatchContext, kind: WordKind) -> Option<bool> {
    if spec_at_beginning(c) && spec_at_end(e, c) {
        Some(false)
    } else {
        match (spec_word_before(e, c, kind), spec_word_after(e, c, kind)) {
            (Some(that), Some(this)) => Some(this == that),
            _ => None,
        }
    }
}

/// Whether a `SUCCESS` reached in context `c` ends the match: always below the top
/// level; at the top level not before the end when the whole subject must match, and not
/// at the start when the match must advance.
pub open spec fn spec_can_success(e: Env, c: MatchContext) -> bool {
    if !c.toplevel {
        true
    } else if e.match_all && !spec_at_end(e, c) {
        false
    } else if e.must_advance && c.string_position == e.start {
        false
    } else {
        true
    }
}

pub open spec fn spec_failure(c: MatchContext) -> MatchContext {
    MatchContext { has_matched: Some(false), ..c }
}

pub open spec fn spec_fail(d: Drive) -> Drive {
    Drive { ctx: spec_failure(d.ctx), ..d }
}

pub open spec fn spec_sync(d: Drive) -> Drive {
    Drive { m: Machine { string_position: d.ctx.string_position, ..d.m }, ..d }
}

/// Asks for a child context at code position `code_position`, to be resumed with `handler`.
pub open spec fn spec_next_ctx_at(d: Drive, code_position: usize, handler: Handler) -> Drive {
    Drive {
        next_ctx: Some(
            MatchContext {
                code_position,
                has_matched: None,
                toplevel: false,
                handler: None,
                ..d.ctx
            },
        ),
        ctx: MatchContext { handler: Some(handler), ..d.ctx },
        ..d
    }
}

pub open spec fn spec_next_ctx(d: Drive, offset: usize, handler: Handler) -> Option<Drive> {
    if d.ctx.code_position + offset > usize::MAX {
        None
    } else {
        Some(spec_next_ctx_at(d, (d.ctx.code_position + offset) as usize, handler))
    }
}

pub open spec fn spec_next_ctx_from(e: Env, d: Drive, peek: usize, handler: Handler) -> Option<
    Drive,
> {
    match spec_peek_code(e, d.ctx, peek) {
        None => None,
        Some(v) => if v + 1 > usize::MAX {
            None
        } else {
            spec_next_ctx(d, (v + 1) as usize, handler)
        },
    }
}

/* ---------------- the context operations ---------------- */

impl<'a> State<'a> {
    pub fn peek_code_at(&self, c: &MatchContext, peek: usize) -> (r: u32)
        requires
            spec_peek_code(self.env(), *c, peek) is Some,
        ensures
            Some(r) == spec_peek_code(self.env(), *c, peek),
    {
        let _n = self.pattern_codes.len();
        self.pattern_codes[c.code_position + peek]
    }

    /// The codes from `k` codes after the context's code position on.
    pub fn pattern_from(&self, c: &MatchContext, k: usize) -> (r: &'a [u32])
        requires
            c.code_position + k <= self.pattern_codes@.len(),
        ensures
            r@ == self.pattern_codes@.subrange(
                c.code_position + k,
                self.pattern_codes@.len() as int,
            ),
    {
        let _n = self.pattern_codes.len();
        let (_, rest) = self.pattern_codes.split_at(c.code_position + k);
        rest
    }

    pub fn peek_char_at(&self, c: &MatchContext) -> (r: u32)
        requires
            spec_peek_char(self.env(), *c) is Some,
        ensures
            Some(r) == spec_peek_char(self.env(), *c),
    {
        self.string.peek(c.string_offset)
    }

    pub fn back_peek_char_at(&self, c: &MatchContext) -> (r: u32)
        requires
            spec_back_peek_char(self.env(), *c) is Some,
        ensures
            Some(r) == spec_back_peek_char(self.env(), *c),
    {
        self.string.back_peek(c.string_offset)
    }

    pub fn skip_char_at(&self, c: &mut MatchContext, skip_count: usize)
        requires
            spec_skip_char(self.env(), *old(c), skip_count) is Some,
        ensures
            Some(*final(c)) == spec_skip_char(self.env(), *old(c), skip_count),
    {
        c.string_offset = self.string.offset(c.string_offset, skip_count);
        c.string_position += skip_count;
    }

    pub fn back_skip_char_at(&self, c: &mut MatchContext, skip_count: usize)
        requires
            spec_back_skip_char(self.env(), *old(c), skip_count) is Some,
        ensures
            Some(*final(c)) == spec_back_skip_char(self.env(), *old(c), skip_count),
    {
        c.string_position -= skip_count;
        c.string_offset = self.string.back_offset(c.string_offset, skip_count);
    }

    pub fn remaining_chars_at(&self, c: &MatchContext) -> (r: usize)
        requires
            spec_remaining_chars(self.env(), *c) is Some,
        ensures
            Some(r) == spec_remaining_chars(self.env(), *c),
    {
        self.end - c.string_position
    }

    pub fn at_end_at(&self, c: &MatchContext) -> (r: bool)
        ensures
            r == spec_at_end(self.env(), *c),
    {
        c.string_position == self.end
    }

    pub fn at_linebreak_at(&self, c: &MatchContext) -> (r: bool)
        requires
            spec_at_linebreak(self.env(), *c) is Some,
        ensures
            Some(r) == spec_at_linebreak(self.env(), *c),
    {
        !self.at_end_at(c) && is_linebreak(self.peek_char_at(c))
    }

    fn word_before(&self, c: &MatchContext, kind: WordKind) -> (r: bool)
        requires
            spec_word_before(self.env(), *c, kind) is Some,
        ensures
            Some(r) == spec_word_before(self.env(), *c, kind),
    {
        !(c.string_position == 0) && word(kind, self.back_peek_char_at(c))
    }

    fn word_after(&self, c: &MatchContext, kind: WordKind) -> (r: bool)
        requires
            spec_word_after(self.env(), *c, kind) is Some,
        ensures
            Some(r) == spec_word_after(self.env(), *c, kind),
    {
        !self.at_end_at(c) && word(kind, self.peek_char_at(c))
    }

    pub fn at_boundary_at(&self, c: &MatchContext, kind: WordKind) -> (r: bool)
        requires
            spec_at_boundary(self.env(), *c, kind) is Some,
        ensures
            Some(r) == spec_at_boundary(self.env(), *c, kind),
    {
        if c.string_position == 0 && self.at_end_at(c) {
            return false;
        }
        let that = self.word_before(c, kind);
        let this = self.word_after(c, kind);
        this != that
    }

    pub fn at_non_boundary_at(&self, c: &MatchContext, kind: WordKind) -> (r: bool)
        requires
            spec_at_non_boundary(self.env(), *c, kind) is Some,
        ensures
            Some(r) == spec_at_non_boundary(self.env(), *c, kind),
    {
        if c.string_position == 0 && self.at_end_at(c) {
            return false;
        }
        let that = self.word_before(c, kind);
        let this = self.word_after(c, kind);
        this == that
    }

    pub fn can_success_at(&self, c: &MatchContext) -> (r: bool)
        ensures
            r == spec_can_success(self.env(), *c),
    {
        if !c.toplevel {
            return true;
        }
        if self.match_all && !self.at_end_at(c) {
            return false;
        }
        if self.must_advance && c.string_position == self.start {
            return false;
        }
        true
    }
}

impl<'a> StateContext<'a> {
    pub fn peek_code(&self, peek: usize) -> (r: u32)
        requires
            spec_peek_code(self.state.env(), self.ctx, peek) is Some,
        ensures
            Some(r) == spec_peek_code(self.state.env(), self.ctx, peek),
    {
        self.state.peek_code_at(&self.ctx, peek)
    }

    pub fn peek_char(&self) -> (r: u32)
        requires
            spec_peek_char(self.state.env(), self.ctx) is Some,
        ensures
            Some(r) == spec_peek_char(self.state.env(), self.ctx),
    {
        self.state.peek_char_at(&self.ctx)
    }

    pub fn skip_char(&mut self, skip_count: usize)
        requires
            spec_skip_char(old(self).state.env(), old(self).ctx, skip_count) is Some,
        ensures
            final(self).state == old(self).state,
            final(self).next_ctx == old(self).next_ctx,
            Some(final(self).ctx) == spec_skip_char(old(self).state.env(), old(self).ctx, skip_count),
    {
        self.state.skip_char_at(&mut self.ctx, skip_count);
    }

    pub fn back_skip_char(&mut self, skip_count: usize)
        requires
            spec_back_skip_char(old(self).state.env(), old(self).ctx, skip_count) is Some,
        ensures
            final(self).state == old(self).state,
            final(self).next_ctx == old(self).next_ctx,
            Some(final(self).ctx) == spec_back_skip_char(
                old(self).state.env(),
                old(self).ctx,
                skip_count,
            ),
    {
        self.state.back_skip_char_at(&mut self.ctx, skip_count);
    }

    pub fn skip_code(&mut self, skip_count: usize)
        requires
            spec_skip_code(old(self).ctx, skip_count) is Some,
        ensures
            final(self).state == old(self).state,
            final(self).next_ctx == old(self).next_ctx,
            Some(final(self).ctx) == spec_skip_code(old(self).ctx, skip_count),
    {
        self.ctx.code_position += skip_count;
    }

    pub fn skip_code_from(&mut self, peek: usize)
        requires
            spec_skip_code_from(old(self).state.env(), old(self).ctx, peek) is Some,
        ensures
            final(self).state == old(self).state,
            final(self).next_ctx == old(self).next_ctx,
            Some(final(self).ctx) == spec_skip_code_from(old(self).state.env(), old(self).ctx, peek),
    {
        let v = self.peek_code(peek) as usize + 1;
        self.skip_code(v);
    }

    pub fn remaining_chars(&self) -> (r: usize)
        requires
            spec_remaining_chars(self.state.env(), self.ctx) is Some,
        ensures
            Some(r) == spec_remaining_chars(self.state.env(), self.ctx),
    {
        self.state.remaining_chars_at(&self.ctx)
    }

    pub fn remaining_codes(&self) -> (r: usize)
        requires
            spec_remaining_codes(self.state.env(), self.ctx) is Some,
        ensures
            Some(r) == spec_remaining_codes(self.state.env(), self.ctx),
    {
        self.state.pattern_codes.len() - self.ctx.code_position
    }

    pub fn at_end(&self) -> (r: bool)
        ensures
            r == spec_at_end(self.state.env(), self.ctx),
    {
        self.state.at_end_at(&self.ctx)
    }

    pub fn at_linebreak(&self) -> (r: bool)
        requires
            spec_at_linebreak(self.state.env(), self.ctx) is Some,
        ensures
            Some(r) == spec_at_linebreak(self.state.env(), self.ctx),
    {
        self.state.at_linebreak_at(&self.ctx)
    }

    pub fn can_success(&self) -> (r: bool)
        ensures
            r == spec_can_success(self.state.env(), self.ctx),
    {
        self.state.can_success_at(&self.ctx)
    }

    pub fn failure(&mut self)
        ensures
            final(self).state == old(self).state,
            final(self).next_ctx == old(self).next_ctx,
            final(self).ctx == spec_failure(old(self).ctx),
    {
        self.ctx.has_matched = Some(false);
    }

    pub fn sync_string_position(&mut self)
        ensures
            final(self).state.env() == old(self).state.env(),
            final(self).state.string == old(self).state.string,
            final(self).state.pattern_codes == old(self).state.pattern_codes,
            final(self).dv() == spec_sync(old(self).dv()),
    {
        self.state.string_position = self.ctx.string_position;
    }

    pub fn next_ctx_at(&mut self, code_position: usize, handler: Handler)
        ensures
            final(self).state == old(self).state,
            final(self).dv() == spec_next_ctx_at(old(self).dv(), code_position, handler),
    {
        self.next_ctx = Some(
            MatchContext {
                code_position,
                has_matched: None,
                toplevel: false,
                handler: None,
                ..self.ctx
            },
        );
        self.ctx.handler = Some(handler);
    }

    pub fn next_ctx(&mut self, offset: usize, handler: Handler)
        requires
            spec_next_ctx(old(self).dv(), offset, handler) is Some,
        ensures
            final(self).state == old(self).state,
            Some(final(self).dv()) == spec_next_ctx(old(self).dv(), offset, handler),
    {
        self.next_ctx_at(self.ctx.code_position + offset, handler);
    }

    pub fn next_ctx_from(&mut self, peek: usize, handler: Handler)
        requires
            spec_next_ctx_from(old(self).state.env(), old(self).dv(), peek, handler) is Some,
        ensures
            final(self).state == old(self).state,
            Some(final(self).dv()) == spec_next_ctx_from(
                old(self).state.env(),
                old(self).dv(),
                peek,
                handler,
            ),
    {
        let v = self.peek_code(peek) as usize + 1;
        self.next_ctx(v, handler);
    }
}

/* ---------------- laws ---------------- */

/// A word boundary and a non-boundary exclude each other and one of them holds, wherever
/// the context is not both at the beginning and at the end; there, neither holds.
pub proof fn lemma_boundary_complement(e: Env, c: MatchContext, kind: WordKind)
    requires
        spec_at_boundary(e, c, kind) is Some,
    ensures
        spec_at_non_boundary(e, c, kind) is Some,
        !(spec_at_beginning(c) && spec_at_end(e, c)) ==> spec_at_non_boundary(e, c, kind)
            == Some(!spec_at_boundary(e, c, kind).unwrap()),
        spec_at_beginning(c) && spec_at_end(e, c) ==> spec_at_boundary(e, c, kind) == Some(false)
            && spec_at_non_boundary(e, c, kind) == Some(false),
{
}

} // verus!
