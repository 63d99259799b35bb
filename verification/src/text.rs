//! Character-level questions asked of text: whitespace, substrings, lines.

use vstd::prelude::*;

verus! {

/// Unicode `White_Space`, the property behind `char::is_whitespace`.
pub open spec fn is_space(c: char) -> bool {
    let u = c as u32;
    ||| 0x09 <= u <= 0x0D
    ||| u == 0x20
    ||| u == 0x85
    ||| u == 0xA0
    ||| u == 0x1680
    ||| 0x2000 <= u <= 0x200A
    ||| u == 0x2028
    ||| u == 0x2029
    ||| u == 0x202F
    ||| u == 0x205F
    ||| u == 0x3000
}

/// Reports whether `c` is Unicode whitespace.
pub fn is_whitespace(c: char) -> (r: bool)
    ensures
        r == is_space(c),
{
    let u = c as u32;
    (0x09 <= u && u <= 0x0D) || u == 0x20 || u == 0x85 || u == 0xA0 || u == 0x1680 || (0x2000
        <= u && u <= 0x200A) || u == 0x2028 || u == 0x2029 || u == 0x202F || u == 0x205F || u
        == 0x3000
}

/// The characters of `s`, in order.
pub fn chars_of(s: &str) -> (v: Vec<char>)
    ensures
        v@ == s@,
{
    let mut v: Vec<char> = Vec::new();
    for c in it: s.chars()
        invariant
            it.seq() == s@,
            v@ == it.seq().take(it.index() as int),
    {
        v.push(c);
    }
    v
}

} // verus!

verus! {

/// `needle` occurs in `hay` starting at index `i`.
pub open spec fn occurs_at(hay: Seq<char>, needle: Seq<char>, i: int) -> bool {
    &&& 0 <= i
    &&& i + needle.len() <= hay.len()
    &&& hay.subrange(i, i + needle.len()) == needle
}

/// `needle` occurs somewhere in `hay`; the empty needle occurs everywhere.
pub open spec fn contains_text(hay: Seq<char>, needle: Seq<char>) -> bool {
    exists|i: int| occurs_at(hay, needle, i)
}

/// `prefix` begins `s`.
pub open spec fn starts_with(s: Seq<char>, prefix: Seq<char>) -> bool {
    prefix.len() <= s.len() && s.subrange(0, prefix.len() as int) == prefix
}

/// The first index at or after `j` that does not hold whitespace.
pub open spec fn space_run(t: Seq<char>, j: int) -> int
    decreases t.len() - j,
{
    if 0 <= j < t.len() && is_space(t[j]) {
        space_run(t, j + 1)
    } else {
        j
    }
}

/// `t` without its leading whitespace, as `str::trim_start` gives it.
pub open spec fn trim_start(t: Seq<char>) -> Seq<char> {
    t.subrange(space_run(t, 0), t.len() as int)
}

/// Some character of `t` is not whitespace, so `str::trim` leaves something.
pub open spec fn has_non_space(t: Seq<char>) -> bool {
    exists|i: int| 0 <= i < t.len() && !is_space(t[i])
}

/// The index of the first `'\n'` at or after `i`, or the length of `s`.
pub open spec fn line_end(s: Seq<char>, i: int) -> int
    decreases s.len() - i,
{
    if i < 0 || i >= s.len() || s[i] == '\n' {
        i
    } else {
        line_end(s, i + 1)
    }
}

/// The line that starts at `i` and ends at `e`: a `'\r'` right before the
/// terminating `'\n'` is not part of it.
pub open spec fn line_text(s: Seq<char>, i: int, e: int) -> Seq<char> {
    if e < s.len() && i < e && s[e - 1] == '\r' {
        s.subrange(i, e - 1)
    } else {
        s.subrange(i, e)
    }
}

/// The lines of `s` from index `i` on, as `str::lines` yields them: split at
/// `'\n'`, a final line ending is optional, and `"\r\n"` ends a line too.
pub open spec fn lines_from(s: Seq<char>, i: int) -> Seq<Seq<char>>
    decreases s.len() - i,
{
    if i < 0 || i >= s.len() {
        Seq::empty()
    } else {
        let e = line_end(s, i);
        proof {
            lemma_line_end_bounds(s, i);
        }
        if e < s.len() {
            seq![line_text(s, i, e)] + lines_from(s, e + 1)
        } else {
            seq![line_text(s, i, e)]
        }
    }
}

/// Every line of `s`.
pub open spec fn lines(s: Seq<char>) -> Seq<Seq<char>> {
    lines_from(s, 0)
}

pub proof fn lemma_line_end_bounds(s: Seq<char>, i: int)
    requires
        0 <= i <= s.len(),
    ensures
        i <= line_end(s, i) <= s.len(),
        line_end(s, i) < s.len() ==> s[line_end(s, i)] == '\n',
        forall|k: int| i <= k < line_end(s, i) ==> s[k] != '\n',
    decreases s.len() - i,
{
    if i < s.len() && s[i] != '\n' {
        lemma_line_end_bounds(s, i + 1);
    }
}

pub proof fn lemma_space_run_bounds(t: Seq<char>, j: int)
    requires
        0 <= j <= t.len(),
    ensures
        j <= space_run(t, j) <= t.len(),
        space_run(t, j) < t.len() ==> !is_space(t[space_run(t, j)]),
        forall|k: int| j <= k < space_run(t, j) ==> is_space(t[k]),
    decreases t.len() - j,
{
    if j < t.len() && is_space(t[j]) {
        lemma_space_run_bounds(t, j + 1);
    }
}

/// Reports whether `needle` occurs in `hay`.
pub fn contains_chars(hay: &Vec<char>, needle: &Vec<char>) -> (r: bool)
    ensures
        r == contains_text(hay@, needle@),
{
    if needle.len() > hay.len() {
        assert forall|i: int| !occurs_at(hay@, needle@, i) by {}
        return false;
    }
    let last = hay.len() - needle.len();
    let mut i: usize = 0;
    while i <= last
        invariant
            needle.len() <= hay.len(),
            last == hay.len() - needle.len(),
            i <= last + 1,
            forall|k: int| 0 <= k < i ==> !occurs_at(hay@, needle@, k),
        decreases last + 1 - i,
    {
        let mut j: usize = 0;
        let mut same = true;
        while j < needle.len()
            invariant
                i <= last,
                last == hay.len() - needle.len(),
                j <= needle.len(),
                same == forall|m: int| 0 <= m < j ==> hay@[i + m] == needle@[m],
            decreases needle.len() - j,
        {
            if hay[i + j] != needle[j] {
                same = false;
            }
            j = j + 1;
        }
        if same {
            assert(hay@.subrange(i as int, i + needle.len()) =~= needle@);
            assert(occurs_at(hay@, needle@, i as int));
            return true;
        }
        assert(!occurs_at(hay@, needle@, i as int)) by {
            if hay@.subrange(i as int, i + needle.len()) == needle@ {
                let m = choose|m: int| 0 <= m < needle.len() && hay@[i + m] != needle@[m];
                assert(hay@.subrange(i as int, i + needle.len())[m] == hay@[i + m]);
            }
        }
        i = i + 1;
    }
    assert forall|k: int| !occurs_at(hay@, needle@, k) by {
        if 0 <= k < i {
        }
    }
    false
}

/// Reports whether some character of `t` is not whitespace.
pub fn any_non_space(t: &Vec<char>) -> (r: bool)
    ensures
        r == has_non_space(t@),
{
    let mut i: usize = 0;
    while i < t.len()
        invariant
            i <= t.len(),
            forall|k: int| 0 <= k < i ==> is_space(t@[k]),
        decreases t.len() - i,
    {
        if !is_whitespace(t[i]) {
            return true;
        }
        i = i + 1;
    }
    false
}

/// Reports whether `trim_start(t[lo..hi])` begins with `prefix`.
fn trimmed_range_starts_with(t: &Vec<char>, lo: usize, hi: usize, prefix: &Vec<char>) -> (r: bool)
    requires
        lo <= hi <= t.len(),
    ensures
        r == starts_with(trim_start(t@.subrange(lo as int, hi as int)), prefix@),
{
    let ghost sub = t@.subrange(lo as int, hi as int);
    let mut j: usize = lo;
    proof {
        lemma_space_run_bounds(sub, 0);
    }
    while j < hi && is_whitespace(t[j])
        invariant
            lo <= j <= hi <= t.len(),
            sub == t@.subrange(lo as int, hi as int),
            space_run(sub, 0) == space_run(sub, j - lo),
        decreases hi - j,
    {
        assert(sub[j - lo] == t@[j as int]);
        j = j + 1;
    }
    proof {
        if j < hi {
            assert(sub[j - lo] == t@[j as int]);
        }
        assert(space_run(sub, j - lo) == j - lo);
    }
    let ghost rest = trim_start(sub);
    assert(rest =~= t@.subrange(j as int, hi as int));
    if hi - j < prefix.len() {
        return false;
    }
    let mut k: usize = 0;
    while k < prefix.len()
        invariant
            lo <= j <= hi <= t.len(),
            prefix.len() <= hi - j,
            k <= prefix.len(),
            rest == t@.subrange(j as int, hi as int),
            rest == trim_start(t@.subrange(lo as int, hi as int)),
            forall|m: int| 0 <= m < k ==> t@[j + m] == prefix@[m],
        decreases prefix.len() - k,
    {
        if t[j + k] != prefix[k] {
            assert(rest.subrange(0, prefix.len() as int)[k as int] == t@[j + k]);
            assert(rest.subrange(0, prefix.len() as int) != prefix@);
            return false;
        }
        k = k + 1;
    }
    assert(rest.subrange(0, prefix.len() as int) =~= prefix@);
    true
}

/// Reports whether some line of `s`, ignoring its leading whitespace, begins
/// with `prefix`.
pub fn some_line_starts_with(s: &Vec<char>, prefix: &Vec<char>) -> (r: bool)
    ensures
        r == exists|k: int|
            0 <= k < lines(s@).len() && starts_with(trim_start(#[trigger] lines(s@)[k]), prefix@),
{
    let mut i: usize = 0;
    let ghost mut seen: Seq<Seq<char>> = Seq::empty();
    while i < s.len()
        invariant
            i <= s.len(),
            lines(s@) == seen + lines_from(s@, i as int),
            forall|k: int| 0 <= k < seen.len() ==> !starts_with(trim_start(#[trigger] seen[k]), prefix@),
        decreases s.len() - i,
    {
        let mut e: usize = i;
        proof {
            lemma_line_end_bounds(s@, i as int);
        }
        while e < s.len() && s[e] != '\n'
            invariant
                i <= e <= s.len(),
                line_end(s@, i as int) == line_end(s@, e as int),
            decreases s.len() - e,
        {
            e = e + 1;
        }
        let hi = if e < s.len() && i < e && s[e - 1] == '\r' {
            e - 1
        } else {
            e
        };
        let ghost line = line_text(s@, i as int, e as int);
        assert(line == s@.subrange(i as int, hi as int));
        assert(lines_from(s@, i as int)[0] == line);
        if trimmed_range_starts_with(s, i, hi, prefix) {
            assert(lines(s@)[seen.len() as int] == line);
            return true;
        }
        proof {
            if e < s.len() {
                assert(lines_from(s@, i as int) == seq![line] + lines_from(s@, e + 1));
                seen = seen.push(line);
                assert(lines(s@) =~= seen + lines_from(s@, e + 1));
            } else {
                assert(lines_from(s@, i as int) == seq![line]);
                seen = seen.push(line);
                assert(lines(s@) =~= seen);
            }
        }
        if e < s.len() {
            i = e + 1;
        } else {
            i = e;
        }
    }
    assert(lines_from(s@, i as int) == Seq::<Seq<char>>::empty());
    assert(lines(s@) =~= seen);
    false
}

} // verus!

verus! {

/// Whether `a` and `b` hold the same characters.
pub fn same_text(a: &str, b: &str) -> (r: bool)
    ensures
        r == (a@ == b@),
{
    let va = chars_of(a);
    let vb = chars_of(b);
    if va.len() != vb.len() {
        return false;
    }
    let mut k: usize = 0;
    while k < va.len()
        invariant
            k <= va.len() == vb.len(),
            va@ == a@,
            vb@ == b@,
            forall|m: int| 0 <= m < k ==> va@[m] == vb@[m],
        decreases va.len() - k,
    {
        if va[k] != vb[k] {
            assert(va@[k as int] != vb@[k as int]);
            return false;
        }
        k = k + 1;
    }
    assert(va@ =~= vb@);
    true
}

/// The index just after the last character before `j` that is not
/// whitespace, or 0 when there is none.
pub open spec fn space_run_back(t: Seq<char>, j: int) -> int
    decreases j,
{
    if 0 < j <= t.len() && is_space(t[j - 1]) {
        space_run_back(t, j - 1)
    } else {
        j
    }
}

/// `t` without its leading and trailing whitespace, as `str::trim` gives it.
pub open spec fn trim(t: Seq<char>) -> Seq<char> {
    let a = space_run(t, 0);
    if a >= t.len() {
        Seq::empty()
    } else {
        t.subrange(a, space_run_back(t, t.len() as int))
    }
}

pub proof fn lemma_space_run_back_bounds(t: Seq<char>, j: int)
    requires
        0 <= j <= t.len(),
    ensures
        0 <= space_run_back(t, j) <= j,
        space_run_back(t, j) > 0 ==> !is_space(t[space_run_back(t, j) - 1]),
        forall|k: int| space_run_back(t, j) <= k < j ==> is_space(t[k]),
    decreases j,
{
    if 0 < j && is_space(t[j - 1]) {
        lemma_space_run_back_bounds(t, j - 1);
    }
}

/// Where `trim(t[lo..hi])` lies in `t`.
pub fn trim_range(t: &Vec<char>, lo: usize, hi: usize) -> (r: (usize, usize))
    requires
        lo <= hi <= t.len(),
    ensures
        lo <= r.0 <= r.1 <= hi,
        t@.subrange(r.0 as int, r.1 as int) == trim(t@.subrange(lo as int, hi as int)),
{
    let ghost sub = t@.subrange(lo as int, hi as int);
    proof {
        lemma_space_run_bounds(sub, 0);
        lemma_space_run_back_bounds(sub, sub.len() as int);
    }
    let mut a: usize = lo;
    while a < hi && is_whitespace(t[a])
        invariant
            lo <= a <= hi <= t.len(),
            sub == t@.subrange(lo as int, hi as int),
            space_run(sub, 0) == space_run(sub, a - lo),
        decreases hi - a,
    {
        assert(sub[a - lo] == t@[a as int]);
        a = a + 1;
    }
    proof {
        if a < hi {
            assert(sub[a - lo] == t@[a as int]);
        }
        assert(space_run(sub, a - lo) == a - lo);
    }
    if a == hi {
        assert(t@.subrange(a as int, a as int) =~= trim(sub));
        return (a, a);
    }
    let mut b: usize = hi;
    assert(sub[a - lo] == t@[a as int]);
    while b > a && is_whitespace(t[b - 1])
        invariant
            lo <= a < hi,
            a < b <= hi <= t.len(),
            !is_space(t@[a as int]),
            sub == t@.subrange(lo as int, hi as int),
            !is_space(sub[a - lo]),
            space_run_back(sub, sub.len() as int) == space_run_back(sub, b - lo),
        decreases b,
    {
        assert(sub[b - 1 - lo] == t@[b - 1]);
        assert(b - 1 != a);
        b = b - 1;
    }
    proof {
        if b > a {
            assert(sub[b - 1 - lo] == t@[b - 1]);
        }
        assert(space_run_back(sub, b - lo) == b - lo);
        assert(t@.subrange(a as int, b as int) =~= sub.subrange(a - lo, b - lo));
    }
    (a, b)
}

/// Where each line of `s` lies in `s`, in order.
pub fn line_spans(s: &Vec<char>) -> (r: Vec<(usize, usize)>)
    ensures
        r@.len() == lines(s@).len(),
        forall|k: int| #![trigger r@[k]] 0 <= k < r@.len() ==> r@[k].0 <= r@[k].1 <= s@.len()
            && s@.subrange(r@[k].0 as int, r@[k].1 as int) == lines(s@)[k],
{
    let mut r: Vec<(usize, usize)> = Vec::new();
    let mut i: usize = 0;
    let ghost mut seen: Seq<Seq<char>> = Seq::empty();
    while i < s.len()
        invariant
            i <= s.len(),
            lines(s@) == seen + lines_from(s@, i as int),
            r@.len() == seen.len(),
            forall|k: int| #![trigger r@[k]] 0 <= k < r@.len() ==> r@[k].0 <= r@[k].1 <= s@.len()
                && s@.subrange(r@[k].0 as int, r@[k].1 as int) == seen[k],
        decreases s.len() - i,
    {
        let mut e: usize = i;
        proof {
            lemma_line_end_bounds(s@, i as int);
        }
        while e < s.len() && s[e] != '\n'
            invariant
                i <= e <= s.len(),
                line_end(s@, i as int) == line_end(s@, e as int),
            decreases s.len() - e,
        {
            e = e + 1;
        }
        let hi = if e < s.len() && i < e && s[e - 1] == '\r' {
            e - 1
        } else {
            e
        };
        let ghost line = line_text(s@, i as int, e as int);
        assert(line == s@.subrange(i as int, hi as int));
        let ghost r_before = r@;
        let ghost seen_before = seen;
        r.push((i, hi));
        proof {
            if e < s.len() {
                assert(lines_from(s@, i as int) == seq![line] + lines_from(s@, e + 1));
                seen = seen.push(line);
                assert(lines(s@) =~= seen + lines_from(s@, e + 1));
            } else {
                assert(lines_from(s@, i as int) == seq![line]);
                seen = seen.push(line);
                assert(lines(s@) =~= seen + lines_from(s@, e as int));
            }
            assert(seen == seen_before.push(line));
            assert forall|k: int| #![trigger r@[k]] 0 <= k < r@.len() implies r@[k].0 <= r@[k].1 <= s@.len()
                && s@.subrange(r@[k].0 as int, r@[k].1 as int) == seen[k] by {
                if k < r_before.len() {
                    assert(r@[k] == r_before[k]);
                    assert(seen[k] == seen_before[k]);
                } else {
                    assert(r@[k] == (i, hi));
                    assert(seen[k] == line);
                }
            }
        }
        if e < s.len() {
            i = e + 1;
        } else {
            i = e;
        }
    }
    assert(lines_from(s@, i as int) == Seq::<Seq<char>>::empty());
    assert(lines(s@) =~= seen);
    r
}

/// Whether `s[lo..hi]` begins with `prefix`.
pub fn range_starts_with(s: &Vec<char>, lo: usize, hi: usize, prefix: &Vec<char>) -> (r: bool)
    requires
        lo <= hi <= s.len(),
    ensures
        r == starts_with(s@.subrange(lo as int, hi as int), prefix@),
{
    if hi - lo < prefix.len() {
        return false;
    }
    let mut k: usize = 0;
    while k < prefix.len()
        invariant
            lo <= hi <= s.len(),
            prefix.len() <= hi - lo,
            k <= prefix.len(),
            forall|m: int| 0 <= m < k ==> s@[lo + m] == prefix@[m],
        decreases prefix.len() - k,
    {
        if s[lo + k] != prefix[k] {
            assert(s@.subrange(lo as int, hi as int).subrange(0, prefix.len() as int)[k as int] == s@[lo + k]);
            return false;
        }
        k = k + 1;
    }
    assert(s@.subrange(lo as int, hi as int).subrange(0, prefix.len() as int) =~= prefix@);
    true
}

} // verus!
