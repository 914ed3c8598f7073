use vstd::prelude::*;
use crate::text::{chars_match, class_of, classify, same_folded, CharClass};

verus! {

/// Weight of every aligned query character.
pub const SCORE_MATCH: i64 = 16;
/// Bonus for a symbol followed by a non-symbol.
pub const BONUS_BOUNDARY: i64 = 8;
/// Bonus for lowercase followed by uppercase, or a non-digit by a digit.
pub const BONUS_CAMEL: i64 = 10;
/// Bonus for landing on a symbol.
pub const BONUS_SYMBOL: i64 = 2;
/// Least bonus of a character that directly follows the previous aligned one.
pub const BONUS_CONSECUTIVE: i64 = 12;
/// Cost of the first unaligned character of a gap.
pub const GAP_START: i64 = 6;
/// Cost of each further unaligned character of the same gap.
pub const GAP_EXTENSION: i64 = 2;

/// The class in front of position `k`; the start of the text counts as a symbol.
pub open spec fn prev_class(classes: Seq<CharClass>, k: int) -> CharClass {
    if k <= 0 {
        CharClass::Symbol
    } else {
        classes[k - 1]
    }
}

/// The bonus for aligning a character of class `cur` after one of class `prev`.
pub open spec fn class_bonus(prev: CharClass, cur: CharClass) -> int {
    if prev == CharClass::Symbol && cur != CharClass::Symbol {
        BONUS_BOUNDARY as int
    } else if (prev == CharClass::Lower && cur == CharClass::Upper) || (prev != CharClass::Digit
        && cur == CharClass::Digit) {
        BONUS_CAMEL as int
    } else if cur == CharClass::Symbol {
        BONUS_SYMBOL as int
    } else {
        0
    }
}

pub open spec fn max3(a: int, b: int, c: int) -> int {
    if a >= b && a >= c {
        a
    } else if b >= c {
        b
    } else {
        c
    }
}

/// Where a left-to-right walk over a window stands.
pub struct Walk {
    /// Query characters aligned so far.
    pub aligned: int,
    pub score: int,
    /// The previous position was aligned.
    pub after_match: bool,
    /// The previous position was an unaligned one inside the window.
    pub in_gap: bool,
    /// The bonus of the first character of the current run.
    pub run_bonus: int,
}

pub open spec fn walk_start() -> Walk {
    Walk { aligned: 0, score: 0, after_match: false, in_gap: false, run_bonus: 0 }
}

/// One position `k` of the walk: align the next query character if it
/// matches, else pay for the gap.
pub open spec fn walk_step(q: Seq<char>, t: Seq<char>, classes: Seq<CharClass>, w: Walk, k: int) -> Walk {
    if w.aligned < q.len() && same_folded(q[w.aligned], t[k]) {
        let raw = class_bonus(prev_class(classes, k), classes[k]);
        let bonus = if w.after_match {
            max3(raw, BONUS_CONSECUTIVE as int, w.run_bonus)
        } else {
            raw
        };
        let applied = if w.aligned == 0 {
            2 * bonus
        } else {
            bonus
        };
        Walk {
            aligned: w.aligned + 1,
            score: w.score + SCORE_MATCH + applied,
            after_match: true,
            in_gap: false,
            run_bonus: if w.after_match {
                w.run_bonus
            } else {
                raw
            },
        }
    } else {
        Walk {
            aligned: w.aligned,
            score: w.score - if w.in_gap {
                GAP_EXTENSION as int
            } else {
                GAP_START as int
            },
            after_match: false,
            in_gap: true,
            run_bonus: w.run_bonus,
        }
    }
}

/// The walk over positions `s..k`.
pub open spec fn walk(q: Seq<char>, t: Seq<char>, classes: Seq<CharClass>, s: int, k: int) -> Walk
    decreases k - s,
{
    if k <= s {
        walk_start()
    } else {
        walk_step(q, t, classes, walk(q, t, classes, s, k - 1), k - 1)
    }
}

/// A raw score brought into `0..=usize::MAX`.
pub open spec fn clamp_score(raw: int) -> int {
    if raw < 0 {
        0
    } else if raw > usize::MAX {
        usize::MAX as int
    } else {
        raw
    }
}

/// The score of the window `[s, e)` of `t` for query `q`.
pub open spec fn window_score(q: Seq<char>, t: Seq<char>, classes: Seq<CharClass>, s: int, e: int) -> int {
    clamp_score(walk(q, t, classes, s, e).score)
}

/// The class of each character of `t`.
pub open spec fn classes_of(t: Seq<char>) -> Seq<CharClass> {
    t.map_values(|c: char| class_of(c))
}

/// The class of each character of `t`.
pub fn class_table(t: &Vec<char>) -> (r: Vec<CharClass>)
    ensures
        r@ == classes_of(t@),
{
    let mut out: Vec<CharClass> = Vec::new();
    let mut i: usize = 0;
    while i < t.len()
        invariant
            i <= t.len(),
            out@ == classes_of(t@.take(i as int)),
        decreases t.len() - i,
    {
        out.push(classify(t[i]));
        i = i + 1;
        assert(classes_of(t@.take(i as int)) =~= classes_of(t@.take(i - 1)).push(class_of(t@[i - 1])));
    }
    assert(t@.take(i as int) =~= t@);
    out
}

/// Scores the window `[start, end)` of `t` for `q`, given the class of each
/// character of `t`.
pub fn score_window(q: &Vec<char>, t: &Vec<char>, classes: &Vec<CharClass>, start: usize, end: usize) -> (r: usize)
    requires
        classes@.len() == t@.len(),
        start <= end <= t@.len(),
    ensures
        r as int == window_score(q@, t@, classes@, start as int, end as int),
{
    let mut aligned: usize = 0;
    let mut score: i128 = 0;
    let mut after_match = false;
    let mut in_gap = false;
    let mut run_bonus: i64 = 0;
    let mut k: usize = start;
    assert(usize::MAX <= 0xffff_ffff_ffff_ffff);
    while k < end
        invariant
            start <= k <= end <= t@.len(),
            classes@.len() == t@.len(),
            aligned <= q@.len(),
            walk(q@, t@, classes@, start as int, k as int) == (Walk {
                aligned: aligned as int,
                score: score as int,
                after_match,
                in_gap,
                run_bonus: run_bonus as int,
            }),
            -6 * (k - start) <= score <= 40 * (k - start),
            0 <= run_bonus <= BONUS_CAMEL,
        decreases end - k,
    {
        if aligned < q.len() && chars_match(q[aligned], t[k]) {
            let cur = classes[k];
            let prev = if k == 0 { CharClass::Symbol } else { classes[k - 1] };
            let raw: i64 = if prev == CharClass::Symbol && cur != CharClass::Symbol {
                BONUS_BOUNDARY
            } else if (prev == CharClass::Lower && cur == CharClass::Upper) || (prev
                != CharClass::Digit && cur == CharClass::Digit) {
                BONUS_CAMEL
            } else if cur == CharClass::Symbol {
                BONUS_SYMBOL
            } else {
                0
            };
            let mut bonus: i64 = raw;
            if after_match {
                if bonus < BONUS_CONSECUTIVE {
                    bonus = BONUS_CONSECUTIVE;
                }
                if bonus < run_bonus {
                    bonus = run_bonus;
                }
            } else {
                run_bonus = raw;
            }
            if aligned == 0 {
                bonus = 2 * bonus;
            }
            score = score + (SCORE_MATCH + bonus) as i128;
            aligned = aligned + 1;
            after_match = true;
            in_gap = false;
        } else {
            if in_gap {
                score = score - GAP_EXTENSION as i128;
            } else {
                score = score - GAP_START as i128;
            }
            after_match = false;
            in_gap = true;
        }
        k = k + 1;
    }
    if score < 0 {
        0
    } else if score > usize::MAX as i128 {
        usize::MAX
    } else {
        score as usize
    }
}

/// Scores the window `[start, end)` of `text` for `query`.
pub fn calculate_score(query: &Vec<char>, text: &Vec<char>, start: usize, end: usize) -> (r: usize)
    requires
        start <= end <= text@.len(),
    ensures
        r as int == window_score(query@, text@, classes_of(text@), start as int, end as int),
{
    let classes = class_table(text);
    score_window(query, text, &classes, start, end)
}

} // verus!
