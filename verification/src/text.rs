//! Character-level text primitives: the whitespace class, searching for a
//! character, and trimming, each as a mathematical definition over
//! `Seq<char>` together with an executable counterpart proved against it.

use vstd::prelude::*;

verus! {

/// The Unicode `White_Space` characters.
pub open spec fn is_space(c: char) -> bool {
    let u = c as u32;
    ||| 0x09 <= u <= 0x0D
    ||| u == 0x20
    ||| u == 0x85
    ||| u == 0xA0
    ||| u == 0x1680
    ||| 0x2000 <= u <= 0x200A
    ||| u == 0x2028
    ||| u == 0x2029
    ||| u == 0x202F
    ||| u == 0x205F
    ||| u == 0x3000
}

/// Every character of `s` is whitespace. The empty text qualifies.
pub open spec fn all_space(s: Seq<char>) -> bool {
    forall|i: int| 0 <= i < s.len() ==> is_space(#[trigger] s[i])
}

/// Index of the first occurrence of `x` in `s`, or `s.len()` when `x` does
/// not occur.
pub open spec fn find<T>(s: Seq<T>, x: T) -> int
    decreases s.len(),
{
    if s.len() == 0 || s[0] == x {
        0
    } else {
        1 + find(s.drop_first(), x)
    }
}

/// `s` without its leading whitespace.
pub open spec fn trim_start(s: Seq<char>) -> Seq<char>
    decreases s.len(),
{
    if s.len() > 0 && is_space(s[0]) {
        trim_start(s.drop_first())
    } else {
        s
    }
}

/// `s` without its trailing whitespace.
pub open spec fn trim_end(s: Seq<char>) -> Seq<char>
    decreases s.len(),
{
    if s.len() > 0 && is_space(s.last()) {
        trim_end(s.drop_last())
    } else {
        s
    }
}

/// `s` without leading and trailing whitespace.
pub open spec fn trim(s: Seq<char>) -> Seq<char> {
    trim_end(trim_start(s))
}

/// `line` without the carriage return `cr` at its end, if it ends with one.
pub open spec fn strip_cr<T>(line: Seq<T>, cr: T) -> Seq<T> {
    if line.len() > 0 && line.last() == cr {
        line.drop_last()
    } else {
        line
    }
}

/// The lines of `text`.
///
/// A line ends with the line feed `lf`, which is no part of it; a carriage
/// return `cr` directly before that line feed is no part of it either. What
/// follows the last line feed is a line of its own unless it is empty, and
/// then keeps a carriage return at its end.
pub open spec fn split_lines<T>(text: Seq<T>, lf: T, cr: T) -> Seq<Seq<T>>
    decreases text.len(),
{
    if text.len() == 0 {
        Seq::empty()
    } else {
        let n = find(text, lf);
        if 0 <= n < text.len() {
            seq![strip_cr(text.take(n), cr)] + split_lines(text.skip(n + 1), lf, cr)
        } else {
            seq![text]
        }
    }
}

/// `find` returns `k` exactly when `k` is the first position holding `x`,
/// or the length when nothing before the end holds it.
pub proof fn lemma_find_at<T>(s: Seq<T>, x: T, k: int)
    requires
        0 <= k <= s.len(),
        forall|j: int| 0 <= j < k ==> s[j] != x,
        k == s.len() || s[k] == x,
    ensures
        find(s, x) == k,
    decreases k,
{
    if k > 0 {
        let rest = s.drop_first();
        assert(s[0] != x);
        assert forall|j: int| 0 <= j < k - 1 implies rest[j] != x by {
            assert(rest[j] == s[j + 1]);
        }
        lemma_find_at(rest, x, k - 1);
    }
}

/// What `find` returns is in range, holds `x` unless it is the length, and
/// nothing before it holds `x`.
pub proof fn lemma_find_first<T>(s: Seq<T>, x: T)
    ensures
        0 <= find(s, x) <= s.len(),
        find(s, x) < s.len() ==> s[find(s, x)] == x,
        forall|j: int| 0 <= j < find(s, x) ==> s[j] != x,
    decreases s.len(),
{
    if s.len() == 0 || s[0] == x {
    } else {
        let rest = s.drop_first();
        lemma_find_first(rest, x);
        assert forall|j: int| 0 <= j < find(s, x) implies s[j] != x by {
            if j > 0 {
                assert(s[j] == rest[j - 1]);
            }
        }
    }
}

/// A text that holds no line feed, followed by a line feed, is the first
/// line of what it stands in front of.
pub proof fn lemma_split_lines_first<T>(line: Seq<T>, rest: Seq<T>, lf: T, cr: T)
    requires
        !line.contains(lf),
    ensures
        split_lines(line + seq![lf] + rest, lf, cr) == seq![strip_cr(line, cr)] + split_lines(
            rest,
            lf,
            cr,
        ),
{
    let text = line + seq![lf] + rest;
    let n = line.len() as int;
    assert forall|j: int| 0 <= j < n implies text[j] != lf by {
        assert(text[j] == line[j]);
        assert(line.contains(line[j]));
    }
    assert(text[n] == lf);
    lemma_find_at(text, lf, n);
    assert(text.take(n) =~= line);
    assert(text.skip(n + 1) =~= rest);
}

/// The lines of two texts in a row are the lines of the first and then
/// those of the second, provided that the first is empty or ends with a
/// line feed.
pub proof fn lemma_split_lines_concat<T>(first: Seq<T>, second: Seq<T>, lf: T, cr: T)
    requires
        first.len() == 0 || first.last() == lf,
    ensures
        split_lines(first + second, lf, cr) == split_lines(first, lf, cr) + split_lines(
            second,
            lf,
            cr,
        ),
    decreases first.len(),
{
    let text = first + second;
    if first.len() == 0 {
        assert(text =~= second);
        assert(split_lines(first, lf, cr) + split_lines(second, lf, cr) =~= split_lines(
            second,
            lf,
            cr,
        ));
    } else {
        lemma_find_first(first, lf);
        let n = find(first, lf);
        if n == first.len() {
            assert(first[first.len() - 1] == lf);
        }
        assert forall|j: int| 0 <= j < n implies text[j] != lf by {
            assert(text[j] == first[j]);
        }
        assert(text[n] == first[n]);
        lemma_find_at(text, lf, n);
        let tail = first.skip(n + 1);
        assert(text.take(n) =~= first.take(n));
        assert(text.skip(n + 1) =~= tail + second);
        if tail.len() > 0 {
            assert(tail.last() == first.last());
        }
        lemma_split_lines_concat(tail, second, lf, cr);
        let head = seq![strip_cr(first.take(n), cr)];
        assert(head + (split_lines(tail, lf, cr) + split_lines(second, lf, cr)) =~= (head
            + split_lines(tail, lf, cr)) + split_lines(second, lf, cr));
    }
}

/// Skipping a maximal run of `k` leading whitespace characters is
/// `trim_start`.
pub proof fn lemma_trim_start_at(s: Seq<char>, k: int)
    requires
        0 <= k <= s.len(),
        forall|j: int| 0 <= j < k ==> is_space(#[trigger] s[j]),
        k == s.len() || !is_space(s[k]),
    ensures
        trim_start(s) == s.skip(k),
    decreases k,
{
    if k > 0 {
        let rest = s.drop_first();
        assert(is_space(s[0]));
        assert forall|j: int| 0 <= j < k - 1 implies is_space(#[trigger] rest[j]) by {
            assert(rest[j] == s[j + 1]);
        }
        lemma_trim_start_at(rest, k - 1);
        assert(rest.skip(k - 1) =~= s.skip(k));
    } else {
        assert(s.skip(0) =~= s);
    }
}

/// Cutting a maximal run of trailing whitespace characters, which starts at
/// `k`, is `trim_end`.
pub proof fn lemma_trim_end_at(s: Seq<char>, k: int)
    requires
        0 <= k <= s.len(),
        forall|j: int| k <= j < s.len() ==> is_space(#[trigger] s[j]),
        k == 0 || !is_space(s[k - 1]),
    ensures
        trim_end(s) == s.take(k),
    decreases s.len() - k,
{
    if k < s.len() {
        let rest = s.drop_last();
        assert(is_space(s.last()));
        assert forall|j: int| k <= j < rest.len() implies is_space(#[trigger] rest[j]) by {
            assert(rest[j] == s[j]);
        }
        lemma_trim_end_at(rest, k);
        assert(rest.take(k) =~= s.take(k));
    } else {
        assert(s.take(k) =~= s);
    }
}

/// A text made of whitespace alone trims to the empty text.
pub proof fn lemma_trim_all_space(s: Seq<char>)
    requires
        all_space(s),
    ensures
        trim(s) == Seq::<char>::empty(),
{
    lemma_trim_start_at(s, s.len() as int);
    assert(s.skip(s.len() as int) =~= Seq::<char>::empty());
}

/// A trimmed text neither starts nor ends with whitespace, and trimming it
/// again changes nothing.
pub proof fn lemma_trim_is_tight(s: Seq<char>)
    ensures
        trim(s).len() > 0 ==> !is_space(trim(s).first()) && !is_space(trim(s).last()),
        trim(trim(s)) == trim(s),
        trim(s).len() <= s.len(),
{
    lemma_trim_start_tight(s);
    let t = trim_start(s);
    lemma_trim_end_tight(t);
    let u = trim_end(t);
    if u.len() > 0 {
        lemma_trim_end_is_prefix(t);
        assert(u.first() == t.first());
        lemma_trim_start_at(u, 0);
        assert(u.skip(0) =~= u);
        lemma_trim_end_at(u, u.len() as int);
        assert(u.take(u.len() as int) =~= u);
    }
}

/// `trim_start` drops a run of whitespace from the front, and the run is
/// maximal.
pub proof fn lemma_trim_start_shape(s: Seq<char>)
    ensures
        trim_start(s).len() <= s.len(),
        trim_start(s) == s.skip(s.len() - trim_start(s).len()),
        forall|j: int| 0 <= j < s.len() - trim_start(s).len() ==> is_space(#[trigger] s[j]),
        trim_start(s).len() > 0 ==> !is_space(trim_start(s).first()),
    decreases s.len(),
{
    if s.len() > 0 && is_space(s[0]) {
        let rest = s.drop_first();
        lemma_trim_start_shape(rest);
        let k = rest.len() - trim_start(rest).len();
        assert(rest.skip(k) =~= s.skip(k + 1));
        assert forall|j: int| 0 <= j < k + 1 implies is_space(#[trigger] s[j]) by {
            if j > 0 {
                assert(s[j] == rest[j - 1]);
            }
        }
    } else {
        assert(s.skip(0) =~= s);
    }
}

proof fn lemma_trim_start_tight(s: Seq<char>)
    ensures
        trim_start(s).len() <= s.len(),
        trim_start(s).len() > 0 ==> !is_space(trim_start(s).first()),
    decreases s.len(),
{
    if s.len() > 0 && is_space(s[0]) {
        lemma_trim_start_tight(s.drop_first());
    }
}

proof fn lemma_trim_end_tight(s: Seq<char>)
    ensures
        trim_end(s).len() <= s.len(),
        trim_end(s).len() > 0 ==> !is_space(trim_end(s).last()),
    decreases s.len(),
{
    if s.len() > 0 && is_space(s.last()) {
        lemma_trim_end_tight(s.drop_last());
    }
}

proof fn lemma_trim_end_is_prefix(s: Seq<char>)
    ensures
        trim_end(s) == s.take(trim_end(s).len() as int),
        trim_end(s).len() <= s.len(),
    decreases s.len(),
{
    if s.len() > 0 && is_space(s.last()) {
        let rest = s.drop_last();
        lemma_trim_end_is_prefix(rest);
        assert(rest.take(trim_end(rest).len() as int) =~= s.take(trim_end(rest).len() as int));
    } else {
        assert(s.take(s.len() as int) =~= s);
    }
}

/// Whether `c` is a whitespace character.
pub fn is_space_char(c: char) -> (r: bool)
    ensures
        r == is_space(c),
{
    let u: u32 = c as u32;
    (0x09 <= u && u <= 0x0D) || u == 0x20 || u == 0x85 || u == 0xA0 || u == 0x1680 || (0x2000 <= u
        && u <= 0x200A) || u == 0x2028 || u == 0x2029 || u == 0x202F || u == 0x205F || u == 0x3000
}

/// The characters of `s`, in order.
pub fn to_chars(s: &str) -> (chars: Vec<char>)
    ensures
        chars@ == s@,
{
    let mut chars: Vec<char> = Vec::new();
    for c in it: s.chars()
        invariant
            it.seq() == s@,
            chars@ == s@.take(it.index() as int),
    {
        chars.push(c);
    }
    chars
}

/// `String::push` appends the character to the end of the string.
pub assume_specification[ String::push ](s: &mut String, c: char)
    ensures
        final(s)@ == old(s)@.push(c),
;

/// Whether `s` holds nothing but whitespace. The empty string does.
pub fn is_whitespace(s: &str) -> (r: bool)
    ensures
        r == all_space(s@),
{
    let mut blank = true;
    for c in it: s.chars()
        invariant
            it.seq() == s@,
            blank == all_space(s@.take(it.index() as int)),
    {
        proof {
            let before = s@.take(it.index() as int);
            let after = s@.take(it.index() as int + 1);
            assert(after =~= before.push(c));
            if all_space(after) {
                assert forall|i: int| 0 <= i < before.len() implies is_space(
                    #[trigger] before[i],
                ) by {
                    assert(before[i] == after[i]);
                }
                assert(is_space(after[before.len() as int]));
            }
        }
        if !is_space_char(c) {
            blank = false;
        }
    }
    proof {
        assert(s@.take(s@.len() as int) =~= s@);
    }
    blank
}

/// Position of the first `c` in `chars[lo..hi]`, or `hi` when there is none.
pub fn find_in(chars: &Vec<char>, lo: usize, hi: usize, c: char) -> (at: usize)
    requires
        lo <= hi <= chars.len(),
    ensures
        lo <= at <= hi,
        at - lo == find(chars@.subrange(lo as int, hi as int), c),
{
    let mut at: usize = lo;
    while at < hi && chars[at] != c
        invariant
            lo <= at <= hi <= chars.len(),
            forall|j: int| lo <= j < at ==> chars@[j] != c,
        decreases hi - at,
    {
        at += 1;
    }
    proof {
        lemma_find_at(chars@.subrange(lo as int, hi as int), c, at - lo);
    }
    at
}

/// The bounds of `chars[lo..hi]` once leading and trailing whitespace is
/// left out.
pub fn trim_range(chars: &Vec<char>, lo: usize, hi: usize) -> (r: (usize, usize))
    requires
        lo <= hi <= chars.len(),
    ensures
        lo <= r.0 <= r.1 <= hi,
        chars@.subrange(r.0 as int, r.1 as int) == trim(chars@.subrange(lo as int, hi as int)),
{
    let mut a: usize = lo;
    while a < hi && is_space_char(chars[a])
        invariant
            lo <= a <= hi <= chars.len(),
            forall|j: int| lo <= j < a ==> is_space(#[trigger] chars@[j]),
        decreases hi - a,
    {
        a += 1;
    }
    let mut b: usize = hi;
    while b > a && is_space_char(chars[b - 1])
        invariant
            a <= b <= hi <= chars.len(),
            forall|j: int| b <= j < hi ==> is_space(#[trigger] chars@[j]),
        decreases b - a,
    {
        b -= 1;
    }
    proof {
        let whole = chars@.subrange(lo as int, hi as int);
        let tail = chars@.subrange(a as int, hi as int);
        lemma_trim_start_at(whole, a - lo);
        assert(whole.skip(a - lo) =~= tail);
        lemma_trim_end_at(tail, b - a);
        assert(tail.take(b - a) =~= chars@.subrange(a as int, b as int));
    }
    (a, b)
}

/// A string holding `chars[lo..hi]`.
pub fn collect(chars: &Vec<char>, lo: usize, hi: usize) -> (s: String)
    requires
        lo <= hi <= chars.len(),
    ensures
        s@ == chars@.subrange(lo as int, hi as int),
{
    let mut s = String::new();
    let mut i: usize = lo;
    while i < hi
        invariant
            lo <= i <= hi <= chars.len(),
            s@ == chars@.subrange(lo as int, i as int),
        decreases hi - i,
    {
        s.push(chars[i]);
        proof {
            assert(chars@.subrange(lo as int, i as int).push(chars@[i as int])
                =~= chars@.subrange(lo as int, i + 1));
        }
        i += 1;
    }
    s
}

/// Whether two strings hold the same text.
pub fn same_text(a: &str, b: &str) -> (same: bool)
    ensures
        same == (a@ == b@),
{
    let x = a.as_bytes();
    let y = b.as_bytes();
    proof {
        vstd::utf8::encode_utf8_decode_utf8(a@);
        vstd::utf8::encode_utf8_decode_utf8(b@);
    }
    if x.len() != y.len() {
        return false;
    }
    let mut i: usize = 0;
    while i < x.len()
        invariant
            i <= x.len(),
            x.len() == y.len(),
            x@ == vstd::utf8::encode_utf8(a@),
            y@ == vstd::utf8::encode_utf8(b@),
            forall|j: int| 0 <= j < i ==> x@[j] == y@[j],
        decreases x.len() - i,
    {
        if x[i] != y[i] {
            return false;
        }
        i += 1;
    }
    proof {
        assert(x@ =~= y@);
    }
    true
}

} // verus!
