//! The order `Path::cmp` puts paths in.
//!
//! Paths compare component by component. A root comes before `.`, `.` before
//! `..`, and those before any name; two names compare by their bytes, which
//! for UTF-8 is the order of their characters' code points. A path that runs
//! out first is the smaller.

use crate::path::{root_part, Parts, PathName};
use crate::text::chars_of;
use vstd::prelude::*;

verus! {

/// `a` comes before `b` in code point order, a proper prefix first.
pub open spec fn chars_lt(a: Seq<char>, b: Seq<char>) -> bool
    decreases a.len(),
{
    if b.len() == 0 {
        false
    } else if a.len() == 0 {
        true
    } else if a[0] == b[0] {
        chars_lt(a.drop_first(), b.drop_first())
    } else {
        (a[0] as int) < (b[0] as int)
    }
}

pub proof fn lemma_chars_lt_irreflexive(a: Seq<char>)
    ensures
        !chars_lt(a, a),
    decreases a.len(),
{
    if a.len() > 0 {
        lemma_chars_lt_irreflexive(a.drop_first());
    }
}

pub proof fn lemma_chars_lt_asymmetric(a: Seq<char>, b: Seq<char>)
    ensures
        chars_lt(a, b) ==> !chars_lt(b, a),
    decreases a.len(),
{
    if a.len() > 0 && b.len() > 0 && a[0] == b[0] {
        lemma_chars_lt_asymmetric(a.drop_first(), b.drop_first());
    }
}

pub proof fn lemma_chars_lt_transitive(a: Seq<char>, b: Seq<char>, c: Seq<char>)
    ensures
        chars_lt(a, b) && chars_lt(b, c) ==> chars_lt(a, c),
    decreases a.len(),
{
    if a.len() > 0 && b.len() > 0 && c.len() > 0 {
        lemma_chars_lt_transitive(a.drop_first(), b.drop_first(), c.drop_first());
    }
}

pub proof fn lemma_chars_lt_total(a: Seq<char>, b: Seq<char>)
    ensures
        a != b ==> chars_lt(a, b) || chars_lt(b, a),
    decreases a.len(),
{
    if a.len() > 0 && b.len() > 0 && a[0] == b[0] {
        lemma_chars_lt_total(a.drop_first(), b.drop_first());
        if a.drop_first() == b.drop_first() {
            assert(a =~= seq![a[0]] + a.drop_first());
            assert(b =~= seq![b[0]] + b.drop_first());
        }
    } else if a.len() > 0 && b.len() > 0 {
        assert((a[0] as int) != (b[0] as int));
    } else if a.len() == 0 && b.len() == 0 {
        assert(a =~= b);
    }
}

/// Where a component stands among the kinds `Path::components` yields.
pub open spec fn part_rank(c: Seq<char>) -> int {
    if c == root_part() {
        0
    } else if c == seq!['.'] {
        1
    } else if c == seq!['.', '.'] {
        2
    } else {
        3
    }
}

/// Component `a` comes before component `b`.
pub open spec fn part_lt(a: Seq<char>, b: Seq<char>) -> bool {
    part_rank(a) < part_rank(b) || (part_rank(a) == 3 && part_rank(b) == 3 && chars_lt(a, b))
}

/// Path `a` comes before path `b`.
pub open spec fn path_lt(a: Parts, b: Parts) -> bool
    decreases a.len(),
{
    if b.len() == 0 {
        false
    } else if a.len() == 0 {
        true
    } else if a[0] == b[0] {
        path_lt(a.drop_first(), b.drop_first())
    } else {
        part_lt(a[0], b[0])
    }
}

pub proof fn lemma_part_lt_props(a: Seq<char>, b: Seq<char>, c: Seq<char>)
    ensures
        !part_lt(a, a),
        part_lt(a, b) ==> !part_lt(b, a),
        part_lt(a, b) && part_lt(b, c) ==> part_lt(a, c),
        a != b ==> part_lt(a, b) || part_lt(b, a),
{
    lemma_chars_lt_irreflexive(a);
    lemma_chars_lt_asymmetric(a, b);
    lemma_chars_lt_transitive(a, b, c);
    lemma_chars_lt_total(a, b);
}

pub proof fn lemma_path_lt_irreflexive(a: Parts)
    ensures
        !path_lt(a, a),
    decreases a.len(),
{
    if a.len() > 0 {
        lemma_path_lt_irreflexive(a.drop_first());
    }
}

pub proof fn lemma_path_lt_asymmetric(a: Parts, b: Parts)
    ensures
        path_lt(a, b) ==> !path_lt(b, a),
    decreases a.len(),
{
    if a.len() > 0 && b.len() > 0 {
        if a[0] == b[0] {
            lemma_path_lt_asymmetric(a.drop_first(), b.drop_first());
        } else {
            lemma_part_lt_props(a[0], b[0], b[0]);
        }
    }
}

pub proof fn lemma_path_lt_transitive(a: Parts, b: Parts, c: Parts)
    ensures
        path_lt(a, b) && path_lt(b, c) ==> path_lt(a, c),
    decreases a.len(),
{
    if a.len() > 0 && b.len() > 0 && c.len() > 0 {
        lemma_path_lt_transitive(a.drop_first(), b.drop_first(), c.drop_first());
        lemma_part_lt_props(a[0], b[0], c[0]);
        lemma_part_lt_props(b[0], a[0], c[0]);
        lemma_part_lt_props(a[0], c[0], b[0]);
    }
}

pub proof fn lemma_path_lt_total(a: Parts, b: Parts)
    ensures
        a != b ==> path_lt(a, b) || path_lt(b, a),
    decreases a.len(),
{
    if a.len() > 0 && b.len() > 0 && a[0] == b[0] {
        lemma_path_lt_total(a.drop_first(), b.drop_first());
        if a.drop_first() == b.drop_first() {
            assert(a =~= seq![a[0]] + a.drop_first());
            assert(b =~= seq![b[0]] + b.drop_first());
        }
    } else if a.len() > 0 && b.len() > 0 {
        lemma_part_lt_props(a[0], b[0], b[0]);
    } else if a.len() == 0 && b.len() == 0 {
        assert(a =~= b);
    }
}

/// The facts that make `path_lt` a strict total order.
pub proof fn lemma_path_order(a: Parts, b: Parts, c: Parts)
    ensures
        !path_lt(a, a),
        path_lt(a, b) ==> !path_lt(b, a),
        path_lt(a, b) && path_lt(b, c) ==> path_lt(a, c),
        a != b ==> path_lt(a, b) || path_lt(b, a),
{
    lemma_path_lt_irreflexive(a);
    lemma_path_lt_asymmetric(a, b);
    lemma_path_lt_transitive(a, b, c);
    lemma_path_lt_total(a, b);
}

/// Whether `a` comes before `b` in code point order.
pub fn chars_less(a: &Vec<char>, b: &Vec<char>) -> (r: bool)
    ensures
        r == chars_lt(a@, b@),
{
    let mut k: usize = 0;
    assert(a@.subrange(0, a@.len() as int) =~= a@);
    assert(b@.subrange(0, b@.len() as int) =~= b@);
    while k < a.len() && k < b.len() && a[k] == b[k]
        invariant
            k <= a.len(),
            k <= b.len(),
            chars_lt(a@, b@) == chars_lt(a@.subrange(k as int, a@.len() as int), b@.subrange(k as int, b@.len() as int)),
        decreases a.len() - k,
    {
        let ghost sa = a@.subrange(k as int, a@.len() as int);
        let ghost sb = b@.subrange(k as int, b@.len() as int);
        assert(sa.drop_first() =~= a@.subrange(k + 1, a@.len() as int));
        assert(sb.drop_first() =~= b@.subrange(k + 1, b@.len() as int));
        k = k + 1;
    }
    let ghost sa = a@.subrange(k as int, a@.len() as int);
    let ghost sb = b@.subrange(k as int, b@.len() as int);
    if k == b.len() {
        assert(sb.len() == 0);
        false
    } else if k == a.len() {
        true
    } else {
        assert(sa[0] == a@[k as int] && sb[0] == b@[k as int]);
        a[k] < b[k]
    }
}

/// Whether string `a` comes before string `b` in code point order, which is
/// the order `String::cmp` gives.
pub fn text_less(a: &String, b: &String) -> (r: bool)
    ensures
        r == chars_lt(a@, b@),
{
    let va = chars_of(a.as_str());
    let vb = chars_of(b.as_str());
    chars_less(&va, &vb)
}

/// Where component `c` stands among the kinds of components.
fn rank_of(c: &Vec<char>) -> (r: u8)
    ensures
        r as int == part_rank(c@),
{
    if c.len() == 1 && c[0] == '/' {
        assert(c@ =~= root_part());
        0
    } else if c.len() == 1 && c[0] == '.' {
        assert(c@ =~= seq!['.']);
        assert(c@ != root_part()) by {
            assert(c@[0] != root_part()[0]);
        }
        1
    } else if c.len() == 2 && c[0] == '.' && c[1] == '.' {
        assert(c@ =~= seq!['.', '.']);
        2
    } else {
        assert(c@ != root_part()) by {
            if c.len() == 1 {
                assert(c@[0] != root_part()[0]);
            }
        }
        assert(c@ != seq!['.']) by {
            if c.len() == 1 {
                assert(c@[0] != seq!['.'][0]);
            }
        }
        assert(c@ != seq!['.', '.']) by {
            if c.len() == 2 {
                assert(c@[0] != seq!['.', '.'][0] || c@[1] != seq!['.', '.'][1]);
            }
        }
        3
    }
}

/// Whether component `a` comes before component `b`.
fn part_less(a: &String, b: &String) -> (r: bool)
    ensures
        r == part_lt(a@, b@),
{
    let va = chars_of(a.as_str());
    let vb = chars_of(b.as_str());
    let ra = rank_of(&va);
    let rb = rank_of(&vb);
    if ra != rb {
        ra < rb
    } else if ra == 3 {
        chars_less(&va, &vb)
    } else {
        false
    }
}

impl PathName {
    /// Whether this path comes before `other` in path order.
    pub fn less_than(&self, other: &PathName) -> (r: bool)
        ensures
            r == path_lt(self@, other@),
    {
        let n = self.parts.len();
        let m = other.parts.len();
        let mut k: usize = 0;
        assert(self@.subrange(0, n as int) =~= self@);
        assert(other@.subrange(0, m as int) =~= other@);
        while k < n && k < m && self.parts[k] == other.parts[k]
            invariant
                n == self@.len(),
                m == other@.len(),
                k <= n,
                k <= m,
                path_lt(self@, other@) == path_lt(self@.subrange(k as int, n as int), other@.subrange(k as int, m as int)),
            decreases n - k,
        {
            let ghost sa = self@.subrange(k as int, n as int);
            let ghost sb = other@.subrange(k as int, m as int);
            assert(sa.drop_first() =~= self@.subrange(k + 1, n as int));
            assert(sb.drop_first() =~= other@.subrange(k + 1, m as int));
            k = k + 1;
        }
        let ghost sa = self@.subrange(k as int, n as int);
        let ghost sb = other@.subrange(k as int, m as int);
        if k == m {
            assert(sb.len() == 0);
            false
        } else if k == n {
            true
        } else {
            assert(sa[0] == self@[k as int] && sb[0] == other@[k as int]);
            part_less(&self.parts[k], &other.parts[k])
        }
    }
}

} // verus!
