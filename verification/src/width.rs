//! Display widths of characters and the classes of characters that decide
//! where a line may be broken.
use vstd::prelude::*;

use crate::text::{is_whitespace, spec_is_whitespace};

verus! {

/// Wide East Asian blocks: CJK ideographs and related blocks.
pub open spec fn spec_is_cjk(c: char) -> bool {
    let u = c as u32;
    ||| (0x2e80 <= u && u <= 0x9fff)
    ||| (0xf900 <= u && u <= 0xfaff)
    ||| (0xfe30 <= u && u <= 0xfe4f)
    ||| (0xff01 <= u && u <= 0xff60)
    ||| (0xffe0 <= u && u <= 0xffe6)
    ||| (0x20000 <= u && u <= 0x2fa1f)
}

/// Characters drawn two columns wide: the CJK blocks and the emoji planes.
pub open spec fn spec_is_wide(c: char) -> bool {
    let u = c as u32;
    spec_is_cjk(c) || (0x1f000 <= u && u <= 0x1ffff)
}

/// The number of columns `c` occupies when it starts at column `current_column`.
pub open spec fn spec_char_column_width(c: char, tab_width: int, current_column: int) -> int {
    let u = c as u32;
    if u == 0x9 {
        if tab_width == 0 {
            1
        } else {
            tab_width - current_column % tab_width
        }
    } else if u < 0x20 {
        0
    } else if spec_is_wide(c) {
        2
    } else {
        1
    }
}

/// Closing punctuation that must not begin a line.
pub open spec fn spec_is_cjk_no_start(c: char) -> bool {
    let u = c as u32;
    ||| u == 0x29
    ||| u == 0x5d
    ||| u == 0x7d
    ||| u == 0x3e
    ||| u == 0xff09
    ||| u == 0x3011
    ||| u == 0x300b
    ||| u == 0x300d
    ||| u == 0x300f
    ||| u == 0x3009
    ||| u == 0x3015
    ||| u == 0x3017
    ||| u == 0x3019
    ||| u == 0x301b
    ||| u == 0x3002
    ||| u == 0x3001
    ||| u == 0xff0c
    ||| u == 0xff0e
    ||| u == 0xff1a
    ||| u == 0xff1b
    ||| u == 0xff01
    ||| u == 0xff1f
    ||| u == 0x30fc
}

/// Opening punctuation that must not end a line.
pub open spec fn spec_is_cjk_no_end(c: char) -> bool {
    let u = c as u32;
    ||| u == 0x28
    ||| u == 0x5b
    ||| u == 0x7b
    ||| u == 0x3c
    ||| u == 0xff08
    ||| u == 0x3010
    ||| u == 0x300a
    ||| u == 0x300c
    ||| u == 0x300e
    ||| u == 0x3008
    ||| u == 0x3014
    ||| u == 0x3016
    ||| u == 0x3018
    ||| u == 0x301a
}

/// A line may be broken between `before` and `after`: next to whitespace, or
/// next to a CJK character unless that would start a line with closing
/// punctuation or end one with opening punctuation.
pub open spec fn spec_can_break_between(before: char, after: char) -> bool {
    if spec_is_whitespace(before) || spec_is_whitespace(after) {
        true
    } else if spec_is_cjk(before) || spec_is_cjk(after) {
        !spec_is_cjk_no_start(after) && !spec_is_cjk_no_end(before)
    } else {
        false
    }
}

/// The width of each kind of character.  A tab reaches the next tab stop
/// (one column when tab stops are off), other control characters take no
/// column, and characters of the CJK blocks (U+2E80..U+9FFF, U+F900..U+FAFF,
/// U+FE30..U+FE4F, U+FF01..U+FF60, U+FFE0..U+FFE6, U+20000..U+2FA1F) and of
/// the emoji plane (U+1F000..U+1FFFF) take two; every other character takes
/// one.  The CJK class used for line breaking is those CJK blocks exactly,
/// without the emoji plane.
pub proof fn lemma_char_widths(c: char, tab_width: int, current_column: int)
    ensures
        ({
            let u = c as u32;
            let cjk_block = (0x2e80 <= u <= 0x9fff) || (0xf900 <= u <= 0xfaff) || (0xfe30 <= u
                <= 0xfe4f) || (0xff01 <= u <= 0xff60) || (0xffe0 <= u <= 0xffe6) || (0x20000 <= u
                <= 0x2fa1f);
            let emoji = 0x1f000 <= u <= 0x1ffff;
            let w = spec_char_column_width(c, tab_width, current_column);
            &&& spec_is_cjk(c) <==> cjk_block
            &&& (u == 0x9 && tab_width == 0) ==> w == 1
            &&& (u == 0x9 && tab_width != 0) ==> w == tab_width - current_column % tab_width
            &&& (u < 0x20 && u != 0x9) ==> w == 0
            &&& (u >= 0x20 && (cjk_block || emoji)) ==> w == 2
            &&& (u >= 0x20 && !cjk_block && !emoji) ==> w == 1
        }),
{
}

/// Where a line may be broken.  Next to whitespace, always.  Between two
/// other characters, only when one of them is CJK, and then not before the
/// closing marks U+0029 U+005D U+007D U+003E U+FF09 U+3011 U+300B U+300D U+300F U+3009
/// U+3015 U+3017 U+3019 U+301B U+3002 U+3001 U+FF0C U+FF0E U+FF1A U+FF1B
/// U+FF01 U+FF1F U+30FC (they may not begin a line) and not after the
/// opening marks U+0028 U+005B U+007B U+003C U+FF08 U+3010 U+300A U+300C U+300E U+3008
/// U+3014 U+3016 U+3018 U+301A (they may not end a line).
pub proof fn lemma_break_rules(before: char, after: char)
    ensures
        ({
            let a = after as u32;
            let b = before as u32;
            let closing = a == 0x29 || a == 0x5d || a == 0x7d || a == 0x3e || a == 0xff09 || a
                == 0x3011 || a == 0x300b || a == 0x300d || a == 0x300f || a == 0x3009 || a
                == 0x3015 || a == 0x3017 || a == 0x3019 || a == 0x301b || a == 0x3002 || a
                == 0x3001 || a == 0xff0c || a == 0xff0e || a == 0xff1a || a == 0xff1b || a
                == 0xff01 || a == 0xff1f || a == 0x30fc;
            let opening = b == 0x28 || b == 0x5b || b == 0x7b || b == 0x3c || b == 0xff08 || b
                == 0x3010 || b == 0x300a || b == 0x300c || b == 0x300e || b == 0x3008 || b
                == 0x3014 || b == 0x3016 || b == 0x3018 || b == 0x301a;
            let allowed = spec_can_break_between(before, after);
            &&& (spec_is_whitespace(before) || spec_is_whitespace(after)) ==> allowed
            &&& (!spec_is_whitespace(before) && !spec_is_whitespace(after) && !spec_is_cjk(
                before,
            ) && !spec_is_cjk(after)) ==> !allowed
            &&& (!spec_is_whitespace(before) && !spec_is_whitespace(after) && (spec_is_cjk(before)
                || spec_is_cjk(after))) ==> (allowed <==> !closing && !opening)
        }),
{
}

/// The column reached after laying out `s` from column 0.
pub open spec fn columns(s: Seq<char>, tab_width: int) -> int
    decreases s.len(),
{
    if s.len() == 0 {
        0
    } else {
        let p = columns(s.drop_last(), tab_width);
        p + spec_char_column_width(s.last(), tab_width, p)
    }
}

/// Returns the visual column width of a character.
pub fn char_column_width(c: char, tab_width: usize, current_column: usize) -> (w: usize)
    ensures
        w == spec_char_column_width(c, tab_width as int, current_column as int),
{
    let u = c as u32;
    if u == 0x9 {
        if tab_width == 0 {
            1
        } else {
            tab_width - (current_column % tab_width)
        }
    } else if u < 0x20 {
        0
    } else if (0x2e80 <= u && u <= 0x9fff) || (0xf900 <= u && u <= 0xfaff) || (0xfe30 <= u && u
        <= 0xfe4f) || (0xff01 <= u && u <= 0xff60) || (0xffe0 <= u && u <= 0xffe6) || (0x1f000
        <= u && u <= 0x1ffff) || (0x20000 <= u && u <= 0x2fa1f) {
        2
    } else {
        1
    }
}

/// Check if a character is CJK (Chinese/Japanese/Korean) for line-breaking purposes.
pub fn is_cjk(c: char) -> (r: bool)
    ensures
        r == spec_is_cjk(c),
{
    let u = c as u32;
    (0x2e80 <= u && u <= 0x9fff) || (0xf900 <= u && u <= 0xfaff) || (0xfe30 <= u && u <= 0xfe4f)
        || (0xff01 <= u && u <= 0xff60) || (0xffe0 <= u && u <= 0xffe6) || (0x20000 <= u && u
        <= 0x2fa1f)
}

/// Characters that should not start a line (CJK closing punctuation, etc.)
pub fn is_cjk_no_start(c: char) -> (r: bool)
    ensures
        r == spec_is_cjk_no_start(c),
{
    let u = c as u32;
    u == 0x29 || u == 0x5d || u == 0x7d || u == 0x3e || u == 0xff09 || u == 0x3011 || u
        == 0x300b || u == 0x300d || u == 0x300f || u == 0x3009 || u == 0x3015 || u == 0x3017
        || u == 0x3019 || u == 0x301b || u == 0x3002 || u == 0x3001 || u == 0xff0c || u
        == 0xff0e || u == 0xff1a || u == 0xff1b || u == 0xff01 || u == 0xff1f || u == 0x30fc
}

/// Characters that should not end a line (CJK opening punctuation).
pub fn is_cjk_no_end(c: char) -> (r: bool)
    ensures
        r == spec_is_cjk_no_end(c),
{
    let u = c as u32;
    u == 0x28 || u == 0x5b || u == 0x7b || u == 0x3c || u == 0xff08 || u == 0x3010 || u
        == 0x300a || u == 0x300c || u == 0x300e || u == 0x3008 || u == 0x3014 || u == 0x3016
        || u == 0x3018 || u == 0x301a
}

/// Check if we can break between two characters.
pub fn can_break_between(before: char, after: char) -> (r: bool)
    ensures
        r == spec_can_break_between(before, after),
{
    if is_whitespace(before) || is_whitespace(after) {
        return true;
    }
    if is_cjk(before) || is_cjk(after) {
        if is_cjk_no_start(after) {
            return false;
        }
        if is_cjk_no_end(before) {
            return false;
        }
        return true;
    }
    false
}

/// A character takes between zero and `tab_width + 2` columns.
pub proof fn lemma_char_width_bounds(c: char, tab_width: int, current_column: int)
    requires
        tab_width >= 0,
        current_column >= 0,
    ensures
        0 <= spec_char_column_width(c, tab_width, current_column) <= tab_width + 2,
{
    if (c as u32) == 0x9 && tab_width > 0 {
        vstd::arithmetic::div_mod::lemma_mod_bound(current_column, tab_width);
    }
}

/// A tab always advances to the next tab stop: it takes between one and
/// `tab_width` columns, and the column after it is a multiple of `tab_width`.
pub proof fn lemma_tab_reaches_next_stop(tab_width: int, current_column: int)
    requires
        tab_width > 0,
        current_column >= 0,
    ensures
        1 <= spec_char_column_width('\t', tab_width, current_column) <= tab_width,
        (current_column + spec_char_column_width('\t', tab_width, current_column)) % tab_width
            == 0,
{
    let w = spec_char_column_width('\t', tab_width, current_column);
    assert(('\t' as u32) == 0x9);
    assert(w == tab_width - current_column % tab_width);
    let q = current_column / tab_width;
    let r = current_column % tab_width;
    vstd::arithmetic::div_mod::lemma_mod_bound(current_column, tab_width);
    vstd::arithmetic::div_mod::lemma_fundamental_div_mod(current_column, tab_width);
    vstd::arithmetic::mul::lemma_mul_is_distributive_add(tab_width, q, 1);
    vstd::arithmetic::mul::lemma_mul_is_commutative(tab_width, q + 1);
    assert(current_column + w == (q + 1) * tab_width);
    vstd::arithmetic::div_mod::lemma_mod_multiples_basic(q + 1, tab_width);
}

/// Laying out `s` never reaches beyond `s.len() * (tab_width + 2)` columns.
pub proof fn lemma_columns_bounds(s: Seq<char>, tab_width: int)
    requires
        tab_width >= 0,
    ensures
        0 <= columns(s, tab_width) <= s.len() * (tab_width + 2),
    decreases s.len(),
{
    if s.len() > 0 {
        lemma_columns_bounds(s.drop_last(), tab_width);
        let p = columns(s.drop_last(), tab_width);
        lemma_char_width_bounds(s.last(), tab_width, p);
        assert((s.len() - 1) * (tab_width + 2) + (tab_width + 2) == s.len() * (tab_width + 2))
            by (nonlinear_arith);
    }
}

/// The column reached after laying out `s` from column `start`.
pub open spec fn columns_from(s: Seq<char>, start: int, tab_width: int) -> int
    decreases s.len(),
{
    if s.len() == 0 {
        start
    } else {
        let p = columns_from(s.drop_last(), start, tab_width);
        p + spec_char_column_width(s.last(), tab_width, p)
    }
}

pub proof fn lemma_columns_from_zero(s: Seq<char>, tab_width: int)
    ensures
        columns(s, tab_width) == columns_from(s, 0, tab_width),
    decreases s.len(),
{
    if s.len() > 0 {
        lemma_columns_from_zero(s.drop_last(), tab_width);
    }
}

/// Starting a character later never makes it end earlier.
proof fn lemma_char_end_monotone(c: char, tab_width: int, a: int, b: int)
    requires
        0 <= a <= b,
        tab_width >= 0,
    ensures
        a + spec_char_column_width(c, tab_width, a) <= b + spec_char_column_width(c, tab_width, b),
{
    if (c as u32) == 0x9 && tab_width > 0 {
        vstd::arithmetic::div_mod::lemma_fundamental_div_mod(a, tab_width);
        vstd::arithmetic::div_mod::lemma_fundamental_div_mod(b, tab_width);
        vstd::arithmetic::div_mod::lemma_div_is_ordered(a, b, tab_width);
        let qa = a / tab_width;
        let qb = b / tab_width;
        assert(a + (tab_width - a % tab_width) == tab_width * (qa + 1)) by (nonlinear_arith)
            requires
                a == tab_width * qa + a % tab_width,
        ;
        assert(b + (tab_width - b % tab_width) == tab_width * (qb + 1)) by (nonlinear_arith)
            requires
                b == tab_width * qb + b % tab_width,
        ;
        assert(tab_width * (qa + 1) <= tab_width * (qb + 1)) by (nonlinear_arith)
            requires
                qa <= qb,
                tab_width > 0,
        ;
    }
}

/// Laying out from a later column never ends earlier.
pub proof fn lemma_columns_from_monotone(s: Seq<char>, a: int, b: int, tab_width: int)
    requires
        0 <= a <= b,
        tab_width >= 0,
    ensures
        a <= columns_from(s, a, tab_width) <= columns_from(s, b, tab_width),
    decreases s.len(),
{
    if s.len() > 0 {
        lemma_columns_from_monotone(s.drop_last(), a, b, tab_width);
        let pa = columns_from(s.drop_last(), a, tab_width);
        let pb = columns_from(s.drop_last(), b, tab_width);
        lemma_char_end_monotone(s.last(), tab_width, pa, pb);
        lemma_char_width_bounds(s.last(), tab_width, pa);
    }
}

/// Laying out `x + y` is laying out `x`, then `y` from where `x` ended.
pub proof fn lemma_columns_from_split(x: Seq<char>, y: Seq<char>, start: int, tab_width: int)
    ensures
        columns_from(x + y, start, tab_width) == columns_from(
            y,
            columns_from(x, start, tab_width),
            tab_width,
        ),
    decreases y.len(),
{
    if y.len() == 0 {
        assert(x + y =~= x);
    } else {
        lemma_columns_from_split(x, y.drop_last(), start, tab_width);
        assert((x + y).drop_last() =~= x + y.drop_last());
    }
}

/// `s` holds no tab.
pub open spec fn no_tab(s: Seq<char>) -> bool {
    forall|i: int| 0 <= i < s.len() ==> (#[trigger] s[i] as u32) != 0x9
}

/// Without tabs, the width of a text does not depend on where it starts.
pub proof fn lemma_columns_from_without_tabs(s: Seq<char>, start: int, tab_width: int)
    requires
        no_tab(s),
    ensures
        columns_from(s, start, tab_width) == start + columns_from(s, 0, tab_width),
    decreases s.len(),
{
    if s.len() > 0 {
        assert(no_tab(s.drop_last())) by {
            assert forall|i: int| 0 <= i < s.drop_last().len() implies (#[trigger] s.drop_last()[i]
                as u32) != 0x9 by {
                assert(s.drop_last()[i] == s[i]);
            }
        }
        lemma_columns_from_without_tabs(s.drop_last(), start, tab_width);
        assert((s.last() as u32) != 0x9);
    }
}

/// Dropping a prefix of a text never makes the rest wider.
pub proof fn lemma_columns_of_suffix(s: Seq<char>, b: int, tab_width: int)
    requires
        0 <= b <= s.len(),
        tab_width >= 0,
    ensures
        columns(s.subrange(b, s.len() as int), tab_width) <= columns(s, tab_width),
{
    let x = s.subrange(0, b);
    let y = s.subrange(b, s.len() as int);
    assert(x + y =~= s);
    lemma_columns_from_zero(s, tab_width);
    lemma_columns_from_zero(y, tab_width);
    lemma_columns_from_zero(x, tab_width);
    lemma_columns_bounds(x, tab_width);
    lemma_columns_from_split(x, y, 0, tab_width);
    lemma_columns_from_monotone(y, 0, columns(x, tab_width), tab_width);
}

/// Laying out a prefix of a text never reaches further than the whole.
pub proof fn lemma_columns_of_prefix(s: Seq<char>, k: int, tab_width: int)
    requires
        0 <= k <= s.len(),
        tab_width >= 0,
    ensures
        columns(s.subrange(0, k), tab_width) <= columns(s, tab_width),
    decreases s.len() - k,
{
    if k < s.len() {
        lemma_columns_of_prefix(s, k + 1, tab_width);
        let t = s.subrange(0, k + 1);
        assert(t.drop_last() =~= s.subrange(0, k));
        lemma_columns_bounds(t.drop_last(), tab_width);
        lemma_char_width_bounds(t.last(), tab_width, columns(t.drop_last(), tab_width));
    } else {
        assert(s.subrange(0, k) =~= s);
    }
}

/// The column reached after laying out `v[lo..hi]` from column 0 (the
/// running column must fit in a `usize`, as it is summed there).
pub fn columns_of(v: &[char], lo: usize, hi: usize, tab_width: usize) -> (col: usize)
    requires
        lo <= hi <= v@.len(),
        columns(v@.subrange(lo as int, hi as int), tab_width as int) <= usize::MAX,
    ensures
        col == columns(v@.subrange(lo as int, hi as int), tab_width as int),
{
    let mut col: usize = 0;
    let mut k = lo;
    while k < hi
        invariant
            lo <= k <= hi <= v@.len(),
            columns(v@.subrange(lo as int, hi as int), tab_width as int) <= usize::MAX,
            col == columns(v@.subrange(lo as int, k as int), tab_width as int),
        decreases hi - k,
    {
        let ghost s = v@.subrange(lo as int, k + 1);
        assert(s.drop_last() =~= v@.subrange(lo as int, k as int));
        proof {
            let whole = v@.subrange(lo as int, hi as int);
            assert(whole.subrange(0, k + 1 - lo) =~= s);
            lemma_columns_of_prefix(whole, k + 1 - lo, tab_width as int);
        }
        col = col + char_column_width(v[k], tab_width, col);
        k = k + 1;
    }
    col
}

} // verus!
