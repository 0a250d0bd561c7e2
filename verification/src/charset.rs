//! Membership of a character in the character-set program of an `IN` operation.
use vstd::prelude::*;
use crate::chars::{
    category, spec_category, spec_lower_ascii, spec_upper_ascii, spec_upper_unicode, lower_locate,
    upper_locate, upper_unicode,
};
use crate::constants::{SreOpcode, SreCatCode, opcode_of, catcode_of};

verus! {

/// Byte `k` of the words `words`, each word laid out in little-endian byte order.
pub open spec fn word_byte(words: Seq<u32>, k: int) -> u32 {
    (words[k / 4] >> ((k % 4) * 8) as u32) & 0xff
}

/// Runs the set program `set` on `ch` from instruction `i`, where `ok` is the answer a
/// matching item gives (flipped by each `NEGATE`). `None` stands for a program that reads
/// outside `set` or whose index arithmetic overflows.
pub open spec fn charset_from(set: Seq<u32>, ch: u32, i: int, ok: bool) -> Option<bool>
    decreases (if i <= set.len() { set.len() - i + 1 } else { 0 }),
{
    if i < 0 || i >= set.len() {
        Some(false)
    } else {
        match opcode_of(set[i]) {
            None => Some(false),
            Some(op) => match op {
                SreOpcode::FAILURE => Some(!ok),
                SreOpcode::CATEGORY => {
                    if i + 1 >= set.len() {
                        None
                    } else {
                        match catcode_of(set[i + 1]) {
                            None => Some(false),
                            Some(cc) => if spec_category(cc, ch) {
                                Some(ok)
                            } else if i + 2 > usize::MAX {
                                None
                            } else {
                                charset_from(set, ch, i + 2, ok)
                            },
                        }
                    }
                },
                SreOpcode::CHARSET => {
                    if ch < 256 && i + 1 + (ch >> 5u32) >= set.len() {
                        None
                    } else if ch < 256 && (set[i + 1 + (ch >> 5u32)] & (1u32 << (ch & 31u32)))
                        != 0 {
                        Some(ok)
                    } else if i + 9 > usize::MAX {
                        None
                    } else {
                        charset_from(set, ch, i + 9, ok)
                    }
                },
                SreOpcode::BIGCHARSET => {
                    if i + 1 >= set.len() {
                        None
                    } else {
                        let count = set[i + 1] as int;
                        let sub = set.subrange(i + 2, set.len() as int);
                        if ch < 0x10000 && sub.len() < 64 {
                            None
                        } else if ch < 0x10000 && (word_byte(sub, (ch >> 8u32) as int) * 256 + (ch
                            & 255)) / 32 >= sub.len() - 64 {
                            None
                        } else if ch < 0x10000 && (sub[64 + (word_byte(sub, (ch >> 8u32) as int)
                            * 256 + (ch & 255)) / 32] & (1u32 << (ch & 31u32))) != 0 {
                            Some(ok)
                        } else if count * 8 > usize::MAX || i + 2 + 64 + count * 8 > usize::MAX {
                            None
                        } else {
                            charset_from(set, ch, i + 2 + 64 + count * 8, ok)
                        }
                    }
                },
                SreOpcode::LITERAL => {
                    if i + 1 >= set.len() {
                        None
                    } else if ch == set[i + 1] {
                        Some(ok)
                    } else if i + 2 > usize::MAX {
                        None
                    } else {
                        charset_from(set, ch, i + 2, ok)
                    }
                },
                SreOpcode::NEGATE => charset_from(set, ch, i + 1, !ok),
                SreOpcode::RANGE => {
                    if i + 1 >= set.len() {
                        None
                    } else if set[i + 1] <= ch && i + 2 >= set.len() {
                        None
                    } else if set[i + 1] <= ch && ch <= set[i + 2] {
                        Some(ok)
                    } else if i + 3 > usize::MAX {
                        None
                    } else {
                        charset_from(set, ch, i + 3, ok)
                    }
                },
                SreOpcode::RANGE_UNI_IGNORE => {
                    let up = spec_upper_unicode(ch);
                    if i + 1 >= set.len() {
                        None
                    } else if (set[i + 1] <= ch || set[i + 1] <= up) && i + 2 >= set.len() {
                        None
                    } else if set[i + 1] <= ch && ch <= set[i + 2] {
                        Some(ok)
                    } else if set[i + 1] <= up && up <= set[i + 2] {
                        Some(ok)
                    } else if i + 3 > usize::MAX {
                        None
                    } else {
                        charset_from(set, ch, i + 3, ok)
                    }
                },
                _ => Some(false),
            },
        }
    }
}

/// Whether `ch` is a member of the set program `set`; `None` where the program faults.
pub open spec fn spec_charset(set: Seq<u32>, ch: u32) -> Option<bool> {
    charset_from(set, ch, 0, true)
}

fn word_byte_at(words: &[u32], k: usize) -> (r: u32)
    requires
        k / 4 < words@.len(),
    ensures
        r == word_byte(words@, k as int),
        r <= 255,
{
    let w = words[k / 4];
    let sh = ((k % 4) * 8) as u32;
    assert((w >> sh) & 0xff <= 255) by (bit_vector);
    (w >> sh) & 0xff
}

/// Whether `ch` is a member of the set program `set`.
pub fn charset(set: &[u32], ch: u32) -> (r: bool)
    requires
        spec_charset(set@, ch) is Some,
    ensures
        Some(r) == spec_charset(set@, ch),
{
    let mut ok = true;
    let mut i: usize = 0;
    while i < set.len()
        invariant
            charset_from(set@, ch, i as int, ok) == spec_charset(set@, ch),
            spec_charset(set@, ch) is Some,
        decreases (if i <= set@.len() { set@.len() - i + 1 } else { 0 }),
    {
        let opcode = match SreOpcode::try_from_code(set[i]) {
            Some(code) => code,
            None => {
                return false;
            },
        };
        match opcode {
            SreOpcode::FAILURE => {
                return !ok;
            },
            SreOpcode::CATEGORY => {
                let catcode = match SreCatCode::try_from_code(set[i + 1]) {
                    Some(code) => code,
                    None => {
                        return false;
                    },
                };
                if category(catcode, ch) {
                    return ok;
                }
                i += 2;
            },
            SreOpcode::CHARSET => {
                assert(ch & 31 < 32) by (bit_vector);
                assert(ch < 256 ==> ch >> 5 < 8) by (bit_vector);
                if ch < 256 && ((set[i + 1 + (ch >> 5) as usize] & (1u32 << (ch & 31))) != 0) {
                    return ok;
                }
                i += 1 + 8;
            },
            SreOpcode::BIGCHARSET => {
                let count = set[i + 1] as usize;
                if ch < 0x10000 {
                    let (_, sub) = set.split_at(i + 2);
                    assert(ch < 0x10000 ==> ch >> 8 < 256) by (bit_vector);
                    assert(ch & 31 < 32) by (bit_vector);
                    let block_index = (ch >> 8) as usize;
                    assert(sub@.len() >= 64);
                    let block = word_byte_at(sub, block_index);
                    assert(ch & 255 <= 255) by (bit_vector);
                    let w = sub[64 + ((block * 256 + (ch & 255)) / 32) as usize];
                    if w & (1u32 << (ch & 31)) != 0 {
                        return ok;
                    }
                }
                i += 2 + 64 + count * 8;
            },
            SreOpcode::LITERAL => {
                if ch == set[i + 1] {
                    return ok;
                }
                i += 2;
            },
            SreOpcode::NEGATE => {
                ok = !ok;
                i += 1;
            },
            SreOpcode::RANGE => {
                if set[i + 1] <= ch && ch <= set[i + 2] {
                    return ok;
                }
                i += 3;
            },
            SreOpcode::RANGE_UNI_IGNORE => {
                if set[i + 1] <= ch && ch <= set[i + 2] {
                    return ok;
                }
                let ch = upper_unicode(ch);
                if set[i + 1] <= ch && ch <= set[i + 2] {
                    return ok;
                }
                i += 3;
            },
            _ => {
                return false;
            },
        }
    }
    false
}

/// Membership under the locale's case-insensitive comparison: `c` itself, or its
/// uppercase form where that differs from its lowercase form.
pub open spec fn spec_charset_loc_ignore(set: Seq<u32>, c: u32) -> Option<bool> {
    match spec_charset(set, c) {
        None => None,
        Some(true) => Some(true),
        Some(false) => if spec_upper_ascii(c) != spec_lower_ascii(c) {
            spec_charset(set, spec_upper_ascii(c))
        } else {
            Some(false)
        },
    }
}

pub fn charset_loc_ignore(set: &[u32], c: u32) -> (r: bool)
    requires
        spec_charset_loc_ignore(set@, c) is Some,
    ensures
        Some(r) == spec_charset_loc_ignore(set@, c),
{
    let lo = lower_locate(c);
    if charset(set, c) {
        return true;
    }
    let up = upper_locate(c);
    up != lo && charset(set, up)
}

/* ---------------- laws ---------------- */

/// Flipping the answer of a matching item (what each `NEGATE` does) turns an accepting run
/// of the set program into a rejecting one: a char that the program accepts from `i` with
/// polarity `ok` is rejected from `i` with polarity `!ok`.
pub proof fn lemma_charset_polarity(set: Seq<u32>, ch: u32, i: int, ok: bool)
    requires
        charset_from(set, ch, i, ok) == Some(true),
    ensures
        charset_from(set, ch, i, !ok) == Some(false),
    decreases (if i <= set.len() { set.len() - i + 1 } else { 0 }),
{
    if 0 <= i < set.len() && opcode_of(set[i]) is Some {
        // the next instruction, where the run goes on past this one
        let next: int = match opcode_of(set[i]).unwrap() {
            SreOpcode::CATEGORY | SreOpcode::LITERAL => i + 2,
            SreOpcode::CHARSET => i + 9,
            SreOpcode::BIGCHARSET => if i + 1 < set.len() {
                i + 2 + 64 + set[i + 1] as int * 8
            } else {
                i
            },
            SreOpcode::NEGATE => i + 1,
            _ => i + 3,
        };
        let flipped = opcode_of(set[i]).unwrap() == SreOpcode::NEGATE;
        let ok2 = if flipped { !ok } else { ok };
        if i < next && charset_from(set, ch, next, ok2) == Some(true) {
            lemma_charset_polarity(set, ch, next, ok2);
        }
    }
}

/// A set of one range holds the chars within its bounds; with a leading `NEGATE`, those
/// outside them.
pub proof fn lemma_range_set(lo: u32, hi: u32, ch: u32)
    ensures
        spec_charset(seq![22u32, lo, hi, 0u32], ch) == Some(lo <= ch && ch <= hi),
        spec_charset(seq![21u32, 22u32, lo, hi, 0u32], ch) == Some(!(lo <= ch && ch <= hi)),
{
    reveal_with_fuel(charset_from, 3);
}

/* ---------------- well-formed set programs ---------------- */

/// An item of a set program: a literal, a range (case-insensitive or not), a category or a
/// bitmap of the chars below 256.
pub enum SetItem {
    Literal(u32),
    Range(u32, u32),
    RangeUniIgnore(u32, u32),
    Category(SreCatCode),
    Charset(Seq<u32>),
}

/// The codes of a set item.
pub open spec fn item_codes(it: SetItem) -> Seq<u32> {
    match it {
        SetItem::Literal(c) => seq![16u32, c],
        SetItem::Range(lo, hi) => seq![22u32, lo, hi],
        SetItem::RangeUniIgnore(lo, hi) => seq![42u32, lo, hi],
        SetItem::Category(cc) => seq![8u32, cc.spec_code()],
        SetItem::Charset(words) => seq![9u32] + words,
    }
}

/// The codes of a list of set items, one after the other.
pub open spec fn items_codes(items: Seq<SetItem>) -> Seq<u32>
    decreases items.len(),
{
    if items.len() == 0 {
        Seq::empty()
    } else {
        item_codes(items[0]) + items_codes(items.drop_first())
    }
}

/// A bitmap item holds eight words; the other items are always well formed.
pub open spec fn item_ok(it: SetItem) -> bool {
    match it {
        SetItem::Charset(words) => words.len() == 8,
        _ => true,
    }
}

/// Whether the set item holds `ch`.
pub open spec fn item_holds(it: SetItem, ch: u32) -> bool {
    match it {
        SetItem::Literal(c) => ch == c,
        SetItem::Range(lo, hi) => lo <= ch && ch <= hi,
        SetItem::RangeUniIgnore(lo, hi) => (lo <= ch && ch <= hi) || (lo <= spec_upper_unicode(ch)
            && spec_upper_unicode(ch) <= hi),
        SetItem::Category(cc) => spec_category(cc, ch),
        SetItem::Charset(words) => ch < 256 && (words[(ch >> 5u32) as int] & (1u32 << (ch
            & 31u32))) != 0,
    }
}

/// Whether some item of the list holds `ch`.
pub open spec fn some_item_holds(items: Seq<SetItem>, ch: u32) -> bool {
    exists|k: int| 0 <= k < items.len() && #[trigger] item_holds(items[k], ch)
}

proof fn lemma_items_from(p: Seq<u32>, items: Seq<SetItem>, ch: u32, ok: bool)
    requires
        forall|k: int| 0 <= k < items.len() ==> #[trigger] item_ok(items[k]),
        p.len() + items_codes(items).len() + 1 <= usize::MAX,
    ensures
        charset_from(p + items_codes(items) + seq![0u32], ch, p.len() as int, ok) == Some(
            if some_item_holds(items, ch) {
                ok
            } else {
                !ok
            },
        ),
    decreases items.len(),
{
    let set = p + items_codes(items) + seq![0u32];
    let i = p.len() as int;
    if items.len() == 0 {
        assert(set[i] == 0u32);
    } else {
        let it = items[0];
        let rest = items.drop_first();
        let codes = item_codes(it);
        assert(item_ok(items[0]));
        assert(set =~= (p + codes) + items_codes(rest) + seq![0u32]);
        assert forall|k: int| 0 <= k < rest.len() implies #[trigger] item_ok(rest[k]) by {
            assert(item_ok(items[k + 1]));
        }
        lemma_items_from(p + codes, rest, ch, ok);
        assert forall|k: int| 0 <= k < codes.len() implies set[i + k] == codes[k] by {}
        if some_item_holds(rest, ch) {
            let k = choose|k: int| 0 <= k < rest.len() && #[trigger] item_holds(rest[k], ch);
            assert(item_holds(items[k + 1], ch));
        }
        if some_item_holds(items, ch) && !item_holds(it, ch) {
            let k = choose|k: int| 0 <= k < items.len() && #[trigger] item_holds(items[k], ch);
            assert(k != 0);
            assert(item_holds(rest[k - 1], ch));
        }
        if item_holds(it, ch) {
            assert(item_holds(items[0], ch));
        }
        match it {
            SetItem::Category(cc) => {
                crate::constants::lemma_codes_read_back(
                    SreOpcode::FAILURE,
                    crate::constants::SreAtCode::BEGINNING,
                    cc,
                    0,
                );
            },
            SetItem::Charset(words) => {
                assert(ch < 256 ==> (ch >> 5u32) < 8) by (bit_vector);
                if ch < 256 {
                    assert(set[i + 1 + (ch >> 5u32)] == words[(ch >> 5u32) as int]);
                }
            },
            _ => {},
        }
    }
}

/// A well-formed set program, an optional `NEGATE`, then items, then `FAILURE`, holds a char
/// exactly where some item holds it, or, with `NEGATE`, exactly where no item does.
pub proof fn lemma_set_membership(items: Seq<SetItem>, negated: bool, ch: u32)
    requires
        forall|k: int| 0 <= k < items.len() ==> #[trigger] item_ok(items[k]),
        items_codes(items).len() + 2 <= usize::MAX,
    ensures
        spec_charset(
            (if negated {
                seq![21u32]
            } else {
                Seq::<u32>::empty()
            }) + items_codes(items) + seq![0u32],
            ch,
        ) == Some(negated != some_item_holds(items, ch)),
{
    let p: Seq<u32> = if negated {
        seq![21u32]
    } else {
        Seq::<u32>::empty()
    };
    lemma_items_from(p, items, ch, !negated);
    if negated {
        let set = p + items_codes(items) + seq![0u32];
        assert(set[0] == 21u32);
    }
}

} // verus!
