//! Character-level helpers shared by the rest of the library: Unicode
//! whitespace, trimming, the visible (non-whitespace) characters of a text,
//! and conversions between `str`/`String` and vectors of `char`.
use vstd::prelude::*;

verus! {

/// Unicode `White_Space`, the property that `char::is_whitespace` tests.
pub open spec fn spec_is_whitespace(c: char) -> bool {
    let u = c as u32;
    ||| u == 0x20
    ||| (0x9 <= u && u <= 0xd)
    ||| u == 0x85
    ||| u == 0xa0
    ||| u == 0x1680
    ||| (0x2000 <= u && u <= 0x200a)
    ||| u == 0x2028
    ||| u == 0x2029
    ||| u == 0x202f
    ||| u == 0x205f
    ||| u == 0x3000
}

/// Whether `c` is Unicode whitespace (the same set as `char::is_whitespace`).
pub fn is_whitespace(c: char) -> (r: bool)
    ensures
        r == spec_is_whitespace(c),
{
    let u = c as u32;
    if u == 0x20 || (0x9 <= u && u <= 0xd) {
        true
    } else if u < 0x85 {
        false
    } else {
        u == 0x85 || u == 0xa0 || u == 0x1680 || (0x2000 <= u && u <= 0x200a) || u == 0x2028
            || u == 0x2029 || u == 0x202f || u == 0x205f || u == 0x3000
    }
}

/// `s` without its leading whitespace (as `str::trim_start`).
pub open spec fn trim_start(s: Seq<char>) -> Seq<char>
    decreases s.len(),
{
    if s.len() > 0 && spec_is_whitespace(s[0]) {
        trim_start(s.drop_first())
    } else {
        s
    }
}

/// `s` without its trailing whitespace (as `str::trim_end`).
pub open spec fn trim_end(s: Seq<char>) -> Seq<char>
    decreases s.len(),
{
    if s.len() > 0 && spec_is_whitespace(s.last()) {
        trim_end(s.drop_last())
    } else {
        s
    }
}

/// Every character of `s` is whitespace.
pub open spec fn all_whitespace(s: Seq<char>) -> bool {
    forall|i: int| 0 <= i < s.len() ==> spec_is_whitespace(#[trigger] s[i])
}

/// The visible characters of `s`: `s` with every whitespace character removed.
pub open spec fn visible(s: Seq<char>) -> Seq<char>
    decreases s.len(),
{
    if s.len() == 0 {
        Seq::empty()
    } else if spec_is_whitespace(s.last()) {
        visible(s.drop_last())
    } else {
        visible(s.drop_last()).push(s.last())
    }
}

/// The words of `s`: its maximal runs of non-whitespace characters, in
/// order (as `str::split_whitespace`).
pub open spec fn words(s: Seq<char>) -> Seq<Seq<char>>
    decreases s.len(),
{
    if s.len() == 0 {
        Seq::empty()
    } else if spec_is_whitespace(s.last()) {
        words(s.drop_last())
    } else {
        let w = words(s.drop_last());
        if s.len() >= 2 && !spec_is_whitespace(s[s.len() - 2]) {
            w.update(w.len() - 1, w.last().push(s.last()))
        } else {
            w.push(seq![s.last()])
        }
    }
}

/// A text that ends in a visible character has at least one word.
pub proof fn lemma_words_nonempty(s: Seq<char>)
    requires
        s.len() > 0,
        !spec_is_whitespace(s.last()),
    ensures
        words(s).len() > 0,
    decreases s.len(),
{
    if s.len() >= 2 && !spec_is_whitespace(s[s.len() - 2]) {
        assert(s.drop_last().last() == s[s.len() - 2]);
        lemma_words_nonempty(s.drop_last());
    }
}

/// Where the two texts meet at whitespace (or one is empty), the words of
/// their concatenation are the words of the one, then those of the other.
pub proof fn lemma_words_add(a: Seq<char>, b: Seq<char>)
    requires
        a.len() == 0 || b.len() == 0 || spec_is_whitespace(a.last()) || spec_is_whitespace(b[0]),
    ensures
        words(a + b) == words(a) + words(b),
    decreases b.len(),
{
    if b.len() == 0 {
        assert(a + b =~= a);
        assert(words(b) =~= Seq::<Seq<char>>::empty());
        assert(words(a) + words(b) =~= words(a));
    } else {
        let b0 = b.drop_last();
        if b0.len() > 0 {
            assert(b0[0] == b[0]);
        }
        lemma_words_add(a, b0);
        let ab = a + b;
        assert(ab.drop_last() =~= a + b0);
        assert(ab.last() == b.last());
        if !spec_is_whitespace(b.last()) {
            if b0.len() > 0 {
                assert(ab[ab.len() - 2] == b[b.len() - 2]);
                if !spec_is_whitespace(b[b.len() - 2]) {
                    assert(b0.last() == b[b.len() - 2]);
                    lemma_words_nonempty(b0);
                    assert(words(a + b) =~= words(a) + words(b));
                } else {
                    assert(words(a + b) =~= words(a) + words(b));
                }
            } else {
                if a.len() > 0 {
                    assert(ab[ab.len() - 2] == a.last());
                }
                assert(b0 =~= Seq::<char>::empty());
                assert(words(b0) =~= Seq::<Seq<char>>::empty());
                assert(words(a + b) =~= words(a) + words(b));
            }
        }
    }
}

/// Whitespace has no words.
pub proof fn lemma_words_all_whitespace(s: Seq<char>)
    requires
        all_whitespace(s),
    ensures
        words(s) =~= Seq::<Seq<char>>::empty(),
    decreases s.len(),
{
    if s.len() > 0 {
        assert(all_whitespace(s.drop_last())) by {
            assert forall|i: int| 0 <= i < s.drop_last().len() implies spec_is_whitespace(
                #[trigger] s.drop_last()[i],
            ) by {
                assert(s.drop_last()[i] == s[i]);
            }
        }
        lemma_words_all_whitespace(s.drop_last());
        assert(spec_is_whitespace(s[s.len() - 1]));
    }
}

/// Trimming keeps the words.
pub proof fn lemma_words_trim(s: Seq<char>)
    ensures
        words(trim_end(s)) == words(s),
        words(trim_start(s)) == words(s),
{
    lemma_trim_end_is_prefix(s);
    lemma_trim_start_is_suffix(s);
    let e = trim_end(s).len() as int;
    let x = s.subrange(0, e);
    let y = s.subrange(e, s.len() as int);
    assert(x + y =~= s);
    lemma_words_all_whitespace(y);
    if y.len() > 0 {
        assert(spec_is_whitespace(y[0]));
    }
    lemma_words_add(x, y);
    assert(words(x) + words(y) =~= words(x));
    let b = s.len() - trim_start(s).len();
    let p = s.subrange(0, b);
    let q = s.subrange(b, s.len() as int);
    assert(p + q =~= s);
    lemma_words_all_whitespace(p);
    if p.len() > 0 {
        assert(spec_is_whitespace(p[p.len() - 1]));
    }
    lemma_words_add(p, q);
    assert(words(p) + words(q) =~= words(q));
}

/// The words of all the lines, in order.
pub open spec fn words_of_lines(lines: Seq<Seq<char>>) -> Seq<Seq<char>> {
    lines.map_values(|l: Seq<char>| words(l)).flatten_alt()
}

pub proof fn lemma_words_of_lines_push(lines: Seq<Seq<char>>, line: Seq<char>)
    ensures
        words_of_lines(lines.push(line)) == words_of_lines(lines) + words(line),
{
    assert(lines.push(line).map_values(|l: Seq<char>| words(l)) =~= lines.map_values(
        |l: Seq<char>| words(l),
    ).push(words(line)));
    assert(lines.map_values(|l: Seq<char>| words(l)).push(words(line)).drop_last()
        =~= lines.map_values(|l: Seq<char>| words(l)));
}

/// The texts held by a vector of character vectors.
pub open spec fn seqs_of(v: Seq<Vec<char>>) -> Seq<Seq<char>> {
    v.map_values(|l: Vec<char>| l@)
}

/// `s` holds no newline character.
pub open spec fn no_newline(s: Seq<char>) -> bool {
    forall|i: int| 0 <= i < s.len() ==> #[trigger] s[i] != '\n'
}

pub proof fn lemma_trim_start_is_suffix(s: Seq<char>)
    ensures
        trim_start(s).len() <= s.len(),
        trim_start(s) =~= s.subrange(s.len() - trim_start(s).len(), s.len() as int),
        all_whitespace(s.subrange(0, s.len() - trim_start(s).len())),
        trim_start(s).len() > 0 ==> !spec_is_whitespace(trim_start(s)[0]),
    decreases s.len(),
{
    if s.len() > 0 && spec_is_whitespace(s[0]) {
        lemma_trim_start_is_suffix(s.drop_first());
        let k = s.len() - trim_start(s).len();
        assert forall|i: int| 0 <= i < k implies spec_is_whitespace(
            #[trigger] s.subrange(0, k)[i],
        ) by {
            if i > 0 {
                assert(s.subrange(0, k)[i] == s.drop_first().subrange(0, k - 1)[i - 1]);
            }
        }
    }
}

pub proof fn lemma_trim_end_is_prefix(s: Seq<char>)
    ensures
        trim_end(s).len() <= s.len(),
        trim_end(s) =~= s.subrange(0, trim_end(s).len() as int),
        all_whitespace(s.subrange(trim_end(s).len() as int, s.len() as int)),
        trim_end(s).len() > 0 ==> !spec_is_whitespace(trim_end(s).last()),
    decreases s.len(),
{
    if s.len() > 0 && spec_is_whitespace(s.last()) {
        lemma_trim_end_is_prefix(s.drop_last());
        let k = trim_end(s).len() as int;
        assert forall|i: int| 0 <= i < s.len() - k implies spec_is_whitespace(
            #[trigger] s.subrange(k, s.len() as int)[i],
        ) by {
            if i < s.len() - k - 1 {
                assert(s.subrange(k, s.len() as int)[i] == s.drop_last().subrange(
                    k,
                    s.len() - 1,
                )[i]);
            }
        }
    }
}

pub proof fn lemma_visible_add(a: Seq<char>, b: Seq<char>)
    ensures
        visible(a + b) =~= visible(a) + visible(b),
    decreases b.len(),
{
    if b.len() == 0 {
        assert(a + b =~= a);
    } else {
        lemma_visible_add(a, b.drop_last());
        assert((a + b).drop_last() =~= a + b.drop_last());
    }
}

pub proof fn lemma_visible_all_whitespace(s: Seq<char>)
    requires
        all_whitespace(s),
    ensures
        visible(s) =~= Seq::<char>::empty(),
    decreases s.len(),
{
    if s.len() > 0 {
        lemma_visible_all_whitespace(s.drop_last());
    }
}

/// Trimming removes whitespace only.
pub proof fn lemma_visible_trim(s: Seq<char>)
    ensures
        visible(trim_end(s)) == visible(s),
        visible(trim_start(s)) == visible(s),
{
    lemma_trim_end_is_prefix(s);
    lemma_trim_start_is_suffix(s);
    let e = trim_end(s).len() as int;
    assert(s =~= s.subrange(0, e) + s.subrange(e, s.len() as int));
    lemma_visible_add(s.subrange(0, e), s.subrange(e, s.len() as int));
    lemma_visible_all_whitespace(s.subrange(e, s.len() as int));
    assert(visible(s) =~= visible(trim_end(s)));
    let b = s.len() - trim_start(s).len();
    assert(s =~= s.subrange(0, b) + s.subrange(b, s.len() as int));
    lemma_visible_add(s.subrange(0, b), s.subrange(b, s.len() as int));
    lemma_visible_all_whitespace(s.subrange(0, b));
    assert(visible(s) =~= visible(trim_start(s)));
}

/// A single character is visible unless it is whitespace.
pub proof fn lemma_visible_single(c: char)
    ensures
        visible(seq![c]) =~= (if spec_is_whitespace(c) {
            Seq::<char>::empty()
        } else {
            seq![c]
        }),
{
    assert(seq![c].drop_last() =~= Seq::<char>::empty());
    assert(visible(Seq::<char>::empty()) =~= Seq::<char>::empty());
}

/// The characters of `s` in order.
pub fn chars_of(s: &str) -> (v: Vec<char>)
    ensures
        v@ == s@,
{
    let mut v: Vec<char> = Vec::new();
    for c in it: s.chars()
        invariant
            v@ == it.seq().take(it.index() as int),
    {
        v.push(c);
    }
    v
}

/// Appends `c` to `s` with `String::push`; the contract claims that the text
/// afterwards is the text before with `c` added at its end.
#[verifier::external_body]
fn push_char(s: &mut String, c: char)
    ensures
        final(s)@ == old(s)@.push(c),
{
    s.push(c);
}

/// The string made of `v[lo..hi]`.
pub fn string_of(v: &[char], lo: usize, hi: usize) -> (s: String)
    requires
        lo <= hi <= v@.len(),
    ensures
        s@ == v@.subrange(lo as int, hi as int),
{
    let mut s = String::new();
    let mut k = lo;
    while k < hi
        invariant
            lo <= k <= hi <= v@.len(),
            s@ == v@.subrange(lo as int, k as int),
        decreases hi - k,
    {
        push_char(&mut s, v[k]);
        assert(v@.subrange(lo as int, k + 1) =~= v@.subrange(lo as int, k as int).push(v@[k as int]));
        k = k + 1;
    }
    s
}

/// Whether `a` and `b` hold the same characters.
pub fn chars_eq(a: &[char], b: &[char]) -> (r: bool)
    ensures
        r == (a@ == b@),
{
    if a.len() != b.len() {
        return false;
    }
    let mut k: usize = 0;
    while k < a.len()
        invariant
            a@.len() == b@.len(),
            k <= a@.len(),
            a@.subrange(0, k as int) =~= b@.subrange(0, k as int),
        decreases a.len() - k,
    {
        if a[k] != b[k] {
            assert(a@[k as int] != b@[k as int]);
            return false;
        }
        assert(a@.subrange(0, k + 1) =~= b@.subrange(0, k + 1));
        k = k + 1;
    }
    assert(a@ =~= a@.subrange(0, k as int));
    assert(b@ =~= b@.subrange(0, k as int));
    true
}

/// Whether `a` and `b` hold the same text.
pub fn str_eq(a: &str, b: &str) -> (r: bool)
    ensures
        r == (a@ == b@),
{
    let x = a.to_owned();
    let y = b.to_owned();
    x == y
}

/// The first index in `v[lo..hi]` that is not whitespace, or `hi`.
pub fn skip_leading_whitespace(v: &[char], lo: usize, hi: usize) -> (k: usize)
    requires
        lo <= hi <= v@.len(),
    ensures
        lo <= k <= hi,
        trim_start(v@.subrange(lo as int, hi as int)) =~= v@.subrange(k as int, hi as int),
{
    let mut k = lo;
    while k < hi && is_whitespace(v[k])
        invariant
            lo <= k <= hi <= v@.len(),
            trim_start(v@.subrange(lo as int, hi as int)) == trim_start(
                v@.subrange(k as int, hi as int),
            ),
        decreases hi - k,
    {
        assert(v@.subrange(k as int, hi as int).drop_first() =~= v@.subrange(k + 1, hi as int));
        k = k + 1;
    }
    k
}

/// The end of `v[lo..hi]` once its trailing whitespace is removed.
pub fn trailing_whitespace_start(v: &[char], lo: usize, hi: usize) -> (k: usize)
    requires
        lo <= hi <= v@.len(),
    ensures
        lo <= k <= hi,
        trim_end(v@.subrange(lo as int, hi as int)) =~= v@.subrange(lo as int, k as int),
{
    let mut k = hi;
    while k > lo && is_whitespace(v[k - 1])
        invariant
            lo <= k <= hi <= v@.len(),
            trim_end(v@.subrange(lo as int, hi as int)) == trim_end(
                v@.subrange(lo as int, k as int),
            ),
        decreases k - lo,
    {
        assert(v@.subrange(lo as int, k as int).drop_last() =~= v@.subrange(lo as int, k - 1));
        k = k - 1;
    }
    k
}

/// The characters `v[lo..hi]`.
pub fn chars_between(v: &Vec<char>, lo: usize, hi: usize) -> (r: Vec<char>)
    requires
        lo <= hi <= v@.len(),
    ensures
        r@ == v@.subrange(lo as int, hi as int),
{
    let mut r: Vec<char> = Vec::new();
    let mut k = lo;
    while k < hi
        invariant
            lo <= k <= hi <= v@.len(),
            r@ == v@.subrange(lo as int, k as int),
        decreases hi - k,
    {
        r.push(v[k]);
        assert(v@.subrange(lo as int, k + 1) =~= v@.subrange(lo as int, k as int).push(v@[k as int]));
        k = k + 1;
    }
    r
}

/// Whether `m` occurs in `v` at position `k`.
pub fn occurs_at(v: &Vec<char>, k: usize, m: &Vec<char>) -> (r: bool)
    requires
        k <= v@.len(),
    ensures
        r == m@.is_prefix_of(v@.subrange(k as int, v@.len() as int)),
{
    let n = v.len();
    if m.len() > n - k {
        return false;
    }
    let mut j: usize = 0;
    while j < m.len()
        invariant
            k + m@.len() <= n == v@.len(),
            j <= m@.len(),
            forall|t: int| 0 <= t < j ==> m@[t] == v@[k + t],
        decreases m.len() - j,
    {
        if m[j] != v[k + j] {
            assert(v@.subrange(k as int, n as int).subrange(0, m@.len() as int)[j as int] != m@[j as int]);
            return false;
        }
        j = j + 1;
    }
    assert(m@ =~= v@.subrange(k as int, n as int).subrange(0, m@.len() as int));
    true
}

/// The strings made of each vector of characters.
pub fn strings_of(v: &Vec<Vec<char>>) -> (r: Vec<String>)
    ensures
        r@.map_values(|s: String| s@) == seqs_of(v@),
{
    let mut r: Vec<String> = Vec::new();
    let mut k: usize = 0;
    while k < v.len()
        invariant
            k <= v@.len(),
            r@.map_values(|s: String| s@) =~= seqs_of(v@.subrange(0, k as int)),
        decreases v.len() - k,
    {
        let s = string_of(v[k].as_slice(), 0, v[k].len());
        assert(v[k as int]@.subrange(0, v[k as int]@.len() as int) =~= v[k as int]@);
        r.push(s);
        assert(seqs_of(v@.subrange(0, k + 1)) =~= seqs_of(v@.subrange(0, k as int)).push(v@[k as int]@));
        k = k + 1;
    }
    assert(v@.subrange(0, k as int) =~= v@);
    r
}

/// The characters of each string.
pub fn chars_of_strings(v: &[String]) -> (r: Vec<Vec<char>>)
    ensures
        seqs_of(r@) == v@.map_values(|s: String| s@),
{
    let mut r: Vec<Vec<char>> = Vec::new();
    let mut k: usize = 0;
    while k < v.len()
        invariant
            k <= v@.len(),
            seqs_of(r@) =~= v@.subrange(0, k as int).map_values(|s: String| s@),
        decreases v.len() - k,
    {
        let c = chars_of(v[k].as_str());
        r.push(c);
        assert(v@.subrange(0, k + 1).map_values(|s: String| s@) =~= v@.subrange(0, k as int).map_values(|s: String| s@).push(v@[k as int]@));
        k = k + 1;
    }
    assert(v@.subrange(0, k as int) =~= v@);
    r
}

} // verus!
