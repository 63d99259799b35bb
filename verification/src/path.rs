//! Paths as the sequence of their components.
//!
//! A [`PathName`] holds what `Path::components` yields on Unix: an optional
//! root component `/` first, then the names between separators, with empty
//! names and inner `.` names dropped. Everything the library asks of a path
//! (its parent, whether it lies below another, how two paths order) is a
//! question about that sequence.

use crate::text::chars_of;
use vstd::prelude::*;

verus! {

/// The component a leading `/` becomes.
pub open spec fn root_part() -> Seq<char> {
    seq!['/']
}

/// The components of a path, each as its characters.
pub type Parts = Seq<Seq<char>>;

/// A path, held as its components.
#[derive(Debug)]
pub struct PathName {
    pub parts: Vec<String>,
}

/// The characters of each string.
pub open spec fn texts(v: Seq<String>) -> Parts {
    v.map_values(|s: String| s@)
}

impl View for PathName {
    type V = Parts;

    open spec fn view(&self) -> Parts {
        texts(self.parts@)
    }
}

/// `c` is a component `Path::components` can yield: the root, or a non-empty
/// name without a separator.
pub open spec fn wf_part(c: Seq<char>) -> bool {
    c == root_part() || (c.len() > 0 && !c.contains('/'))
}

/// `p` is a sequence of components some path has: only the first may be the
/// root, and a `.` only ever comes first.
pub open spec fn wf_parts(p: Parts) -> bool {
    forall|i: int|
        0 <= i < p.len() ==> {
            &&& wf_part(#[trigger] p[i])
            &&& i > 0 ==> p[i] != root_part() && p[i] != seq!['.']
        }
}

/// The index of the first `/` at or after `i`, or the length of `s`.
pub open spec fn piece_end(s: Seq<char>, i: int) -> int
    decreases s.len() - i,
{
    if i < 0 || i >= s.len() || s[i] == '/' {
        i
    } else {
        piece_end(s, i + 1)
    }
}

pub proof fn lemma_piece_end_bounds(s: Seq<char>, i: int)
    requires
        0 <= i <= s.len(),
    ensures
        i <= piece_end(s, i) <= s.len(),
        piece_end(s, i) < s.len() ==> s[piece_end(s, i)] == '/',
        forall|k: int| i <= k < piece_end(s, i) ==> s[k] != '/',
    decreases s.len() - i,
{
    if i < s.len() && s[i] != '/' {
        lemma_piece_end_bounds(s, i + 1);
    }
}

/// The pieces of `s[i..]` between separators, empty ones included.
pub open spec fn pieces_from(s: Seq<char>, i: int) -> Parts
    decreases s.len() - i + 1,
{
    if i < 0 || i > s.len() {
        Seq::empty()
    } else {
        let e = piece_end(s, i);
        proof {
            lemma_piece_end_bounds(s, i);
        }
        if e < s.len() {
            seq![s.subrange(i, e)] + pieces_from(s, e + 1)
        } else {
            seq![s.subrange(i, e)]
        }
    }
}

/// A piece after the first survives as a component unless it is empty or `.`.
pub open spec fn kept_later(c: Seq<char>) -> bool {
    c.len() > 0 && c != seq!['.']
}

/// The pieces of `ps` that survive as components.
pub open spec fn kept(ps: Parts) -> Parts
    decreases ps.len(),
{
    if ps.len() == 0 {
        Seq::empty()
    } else if kept_later(ps[0]) {
        seq![ps[0]] + kept(ps.drop_first())
    } else {
        kept(ps.drop_first())
    }
}

pub proof fn lemma_kept_append(a: Parts, b: Parts)
    ensures
        kept(a + b) == kept(a) + kept(b),
    decreases a.len(),
{
    if a.len() == 0 {
        assert(a + b =~= b);
    } else {
        assert((a + b).drop_first() =~= a.drop_first() + b);
        lemma_kept_append(a.drop_first(), b);
        assert(kept(a + b) =~= kept(a) + kept(b));
    }
}

/// The components `Path::new(s).components()` yields on Unix.
pub open spec fn components(s: Seq<char>) -> Parts {
    let ps = pieces_from(s, 0);
    let first = ps[0];
    let lead: Parts = if s.len() > 0 && s[0] == '/' {
        seq![root_part()]
    } else if first.len() > 0 {
        seq![first]
    } else {
        Seq::empty()
    };
    lead + kept(ps.drop_first())
}

/// No piece of `s[i..]` holds a separator.
proof fn lemma_pieces_no_separator(s: Seq<char>, i: int)
    requires
        0 <= i <= s.len(),
    ensures
        forall|j: int| 0 <= j < pieces_from(s, i).len() ==> !(#[trigger] pieces_from(s, i)[j]).contains('/'),
    decreases s.len() - i + 1,
{
    lemma_piece_end_bounds(s, i);
    let e = piece_end(s, i);
    let first = s.subrange(i, e);
    assert(!first.contains('/')) by {
        if first.contains('/') {
            let k = choose|k: int| 0 <= k < first.len() && first[k] == '/';
            assert(s[i + k] == '/');
        }
    }
    if e < s.len() {
        lemma_pieces_no_separator(s, e + 1);
        let ps = pieces_from(s, i);
        assert(ps == seq![first] + pieces_from(s, e + 1));
        assert forall|j: int| 0 <= j < ps.len() implies !(#[trigger] ps[j]).contains('/') by {
            if j > 0 {
                assert(ps[j] == pieces_from(s, e + 1)[j - 1]);
            }
        }
    } else {
        assert(pieces_from(s, i) == seq![first]);
    }
}

/// What `kept` keeps of pieces without separators are names: non-empty,
/// without a separator, and never `.`.
proof fn lemma_kept_names(ps: Parts)
    requires
        forall|j: int| 0 <= j < ps.len() ==> !(#[trigger] ps[j]).contains('/'),
    ensures
        forall|j: int| 0 <= j < kept(ps).len() ==> {
            &&& (#[trigger] kept(ps)[j]).len() > 0
            &&& !kept(ps)[j].contains('/')
            &&& kept(ps)[j] != seq!['.']
        },
    decreases ps.len(),
{
    if ps.len() > 0 {
        let rest = ps.drop_first();
        assert forall|j: int| 0 <= j < rest.len() implies !(#[trigger] rest[j]).contains('/') by {
            assert(rest[j] == ps[j + 1]);
        }
        lemma_kept_names(rest);
        if kept_later(ps[0]) {
            assert forall|j: int| 0 <= j < kept(ps).len() implies {
                &&& (#[trigger] kept(ps)[j]).len() > 0
                &&& !kept(ps)[j].contains('/')
                &&& kept(ps)[j] != seq!['.']
            } by {
                if j > 0 {
                    assert(kept(ps)[j] == kept(rest)[j - 1]);
                } else {
                    assert(kept(ps)[0] == ps[0]);
                }
            }
        } else {
            assert(kept(ps) == kept(rest));
        }
    }
}

/// The components of any text are a sequence of components some path has.
pub proof fn lemma_components_wf(s: Seq<char>)
    ensures
        wf_parts(components(s)),
{
    lemma_pieces_no_separator(s, 0);
    let ps = pieces_from(s, 0);
    assert(ps.len() > 0) by {
        lemma_piece_end_bounds(s, 0);
    }
    let rest = ps.drop_first();
    assert forall|j: int| 0 <= j < rest.len() implies !(#[trigger] rest[j]).contains('/') by {
        assert(rest[j] == ps[j + 1]);
    }
    lemma_kept_names(rest);
    let c = components(s);
    let lead: Parts = if s.len() > 0 && s[0] == '/' {
        seq![root_part()]
    } else if ps[0].len() > 0 {
        seq![ps[0]]
    } else {
        Seq::empty()
    };
    assert(c == lead + kept(rest));
    assert(!ps[0].contains('/'));
    assert forall|i: int| 0 <= i < c.len() implies {
        &&& wf_part(#[trigger] c[i])
        &&& i > 0 ==> c[i] != root_part() && c[i] != seq!['.']
    } by {
        if i >= lead.len() {
            let x = kept(rest)[i - lead.len()];
            assert(c[i] == x);
            if x == root_part() {
                assert(x[0] == '/');
                assert(x.contains('/'));
            }
        }
    }
}

/// The characters `s[lo..hi]` as a string.
pub fn string_of_range(s: &Vec<char>, lo: usize, hi: usize) -> (r: String)
    requires
        lo <= hi <= s.len(),
    ensures
        r@ == s@.subrange(lo as int, hi as int),
{
    let mut r = String::new();
    let mut k = lo;
    while k < hi
        invariant
            lo <= k <= hi <= s.len(),
            r@ == s@.subrange(lo as int, k as int),
        decreases hi - k,
    {
        push_char(&mut r, s[k]);
        assert(s@.subrange(lo as int, k + 1) =~= s@.subrange(lo as int, k as int).push(s@[k as int]));
        k = k + 1;
    }
    r
}

/// The end of the piece that starts at `i`.
fn find_piece_end(s: &Vec<char>, i: usize) -> (e: usize)
    requires
        i <= s.len(),
    ensures
        e == piece_end(s@, i as int),
        i <= e <= s.len(),
{
    proof {
        lemma_piece_end_bounds(s@, i as int);
    }
    let mut e = i;
    while e < s.len() && s[e] != '/'
        invariant
            i <= e <= s.len(),
            piece_end(s@, i as int) == piece_end(s@, e as int),
        decreases s.len() - e,
    {
        e = e + 1;
    }
    e
}

impl PathName {
    /// The path `text` names, split into its components.
    #[verifier::spinoff_prover]
    pub fn parse(text: &str) -> (p: PathName)
        ensures
            p@ == components(text@),
            wf_parts(p@),
    {
        proof {
            lemma_components_wf(text@);
        }
        let s = chars_of(text);
        let ghost whole = pieces_from(s@, 0);
        let mut parts: Vec<String> = Vec::new();
        let e0 = find_piece_end(&s, 0);
        let ghost first = s@.subrange(0, e0 as int);
        assert(whole[0] == first);
        let absolute = s.len() > 0 && s[0] == '/';
        if absolute {
            let mut root = String::new();
            push_char(&mut root, '/');
            parts.push(root);
        } else if e0 > 0 {
            parts.push(string_of_range(&s, 0, e0));
        }
        let ghost lead = texts(parts@);
        assert(lead == if s@.len() > 0 && s@[0] == '/' {
            seq![root_part()]
        } else if first.len() > 0 {
            seq![first]
        } else {
            Seq::<Seq<char>>::empty()
        });
        if e0 == s.len() {
            assert(whole =~= seq![first]);
            assert(whole.drop_first() =~= Seq::<Seq<char>>::empty());
            return PathName { parts };
        }
        assert(components(text@) == lead + kept(whole.drop_first()));
        let mut i = e0 + 1;
        let ghost mut seen: Parts = Seq::empty();
        assert(whole =~= seq![first] + seen + pieces_from(s@, i as int));
        loop
            invariant
                0 < i <= s.len(),
                whole == pieces_from(s@, 0),
                components(text@) == lead + kept(whole.drop_first()),
                whole == seq![first] + seen + pieces_from(s@, i as int),
                texts(parts@) == lead + kept(seen),
            decreases s.len() - i,
        {
            let e = find_piece_end(&s, i);
            let ghost piece = s@.subrange(i as int, e as int);
            let keep = e > i && !(e == i + 1 && s[i] == '.');
            assert(keep == kept_later(piece)) by {
                if e == i + 1 {
                    assert(piece =~= seq![s@[i as int]]);
                    if s@[i as int] == '.' {
                        assert(piece =~= seq!['.']);
                    } else {
                        assert(piece[0] != seq!['.'][0]);
                    }
                }
                if e > i + 1 {
                    assert(piece.len() != seq!['.'].len());
                }
            }
            let ghost before = parts@;
            if keep {
                let text_piece = string_of_range(&s, i, e);
                parts.push(text_piece);
                assert(texts(parts@) =~= texts(before).push(piece));
            } else {
                assert(texts(parts@) =~= texts(before));
            }
            proof {
                let old_seen = seen;
                lemma_kept_append(old_seen, seq![piece]);
                assert(seq![piece].drop_first() =~= Seq::<Seq<char>>::empty());
                assert(kept(Seq::<Seq<char>>::empty()) =~= Seq::<Seq<char>>::empty());
                if kept_later(piece) {
                    assert(kept(seq![piece]) =~= seq![piece]);
                } else {
                    assert(kept(seq![piece]) =~= Seq::<Seq<char>>::empty());
                }
                seen = old_seen.push(piece);
                assert(old_seen + seq![piece] =~= seen);
                assert(texts(parts@) =~= lead + kept(seen));
            }
            if e == s.len() {
                assert(pieces_from(s@, i as int) == seq![piece]);
                assert(whole =~= seq![first] + seen);
                assert(whole.drop_first() =~= seen);
                proof {
                    lemma_components_wf(text@);
                }
                return PathName { parts };
            }
            assert(pieces_from(s@, i as int) == seq![piece] + pieces_from(s@, e + 1));
            assert(whole =~= seq![first] + seen + pieces_from(s@, e + 1));
            i = e + 1;
        }
    }
}

/// Components joined with `/`.
pub open spec fn joined(p: Parts) -> Seq<char>
    decreases p.len(),
{
    if p.len() == 0 {
        Seq::empty()
    } else if p.len() == 1 {
        p[0]
    } else {
        p[0] + seq!['/'] + joined(p.drop_first())
    }
}

/// The text `Path::display` shows for components `p`.
pub open spec fn rendered(p: Parts) -> Seq<char> {
    if p.len() > 0 && p[0] == root_part() {
        root_part() + joined(p.drop_first())
    } else {
        joined(p)
    }
}

/// The parent of `p`, as `Path::parent` gives it: nothing above the root or
/// the empty path.
pub open spec fn parent_of(p: Parts) -> Option<Parts> {
    if p.len() == 0 || p == seq![root_part()] {
        None
    } else {
        Some(p.drop_last())
    }
}

/// `p` joined with `rest`, as `Path::join` gives it: an absolute `rest`
/// replaces `p`.
pub open spec fn joined_with(p: Parts, rest: Parts) -> Parts {
    if rest.len() > 0 && rest[0] == root_part() {
        rest
    } else {
        p + rest
    }
}

/// `base` is a leading run of components of `p`, as `Path::starts_with` has it.
pub open spec fn under(p: Parts, base: Parts) -> bool {
    base.is_prefix_of(p)
}

/// The ancestors strictly above `p` that are not the empty path, nearest first:
/// `ancestors_above(p)[k]` keeps all but the last `k + 1` components.
pub open spec fn ancestors_above(p: Parts) -> Seq<Parts> {
    Seq::new(if p.len() > 0 { (p.len() - 1) as nat } else { 0 }, |k: int| p.subrange(0, p.len() - 1 - k))
}

/// Whether `s` is the root component `/`.
pub fn is_root_text(s: &String) -> (r: bool)
    ensures
        r == (s@ == root_part()),
{
    let v = chars_of(s.as_str());
    let r = v.len() == 1 && v[0] == '/';
    if r {
        assert(v@ =~= root_part());
    } else if v.len() == 1 {
        assert(v@[0] != root_part()[0]);
    }
    r
}

/// Every ancestor of `p`, `p` itself first, as `Path::ancestors` yields them:
/// down to the root for an absolute path, down to the empty path otherwise.
pub open spec fn all_ancestors(p: Parts) -> Seq<Parts> {
    let count = if p.len() > 0 && p[0] == root_part() { p.len() } else { p.len() + 1 };
    Seq::new(count, |k: int| p.subrange(0, p.len() - k))
}

impl PathName {
    /// The text of this path, as `Path::display` shows it.
    pub fn to_text(&self) -> (r: String)
        ensures
            r@ == rendered(self@),
    {
        let mut r = String::new();
        let n = self.parts.len();
        if n == 0 {
            return r;
        }
        let mut k: usize = 0;
        let absolute = is_root_text(&self.parts[0]);
        if absolute {
            push_char(&mut r, '/');
            k = 1;
        }
        let ghost rest = if absolute { self@.drop_first() } else { self@ };
        assert(rendered(self@) == r@ + joined(rest)) by {
            if absolute {
                assert(self@[0] =~= root_part());
            } else {
                assert(self@[0] != root_part());
            }
        }
        let ghost start = k as int;
        assert(rest =~= self@.subrange(start, n as int));
        while k < n
            invariant
                start <= k <= n,
                n == self@.len(),
                rest == self@.subrange(start, n as int),
                rendered(self@) == r@ + joined(self@.subrange(k as int, n as int)),
            decreases n - k,
        {
            let ghost tail = self@.subrange(k as int, n as int);
            assert(tail[0] == self.parts@[k as int]@);
            if k + 1 < n {
                assert(tail.drop_first() =~= self@.subrange(k + 1, n as int));
                assert(joined(tail) == tail[0] + seq!['/'] + joined(tail.drop_first()));
                r.append(self.parts[k].as_str());
                push_char(&mut r, '/');
                assert(rendered(self@) =~= r@ + joined(self@.subrange(k + 1, n as int)));
            } else {
                assert(joined(tail) == tail[0]);
                r.append(self.parts[k].as_str());
                assert(self@.subrange(k + 1, n as int) =~= Seq::<Seq<char>>::empty());
                assert(rendered(self@) =~= r@ + joined(self@.subrange(k + 1, n as int)));
            }
            k = k + 1;
        }
        assert(self@.subrange(n as int, n as int) =~= Seq::<Seq<char>>::empty());
        r
    }

    /// A copy of this path.
    pub fn duplicate(&self) -> (r: PathName)
        ensures
            r@ == self@,
    {
        let parts = self.parts.clone();
        assert(texts(parts@) =~= texts(self.parts@));
        PathName { parts }
    }

    /// The number of components.
    pub fn depth(&self) -> (r: usize)
        ensures
            r == self@.len(),
    {
        self.parts.len()
    }

    /// Whether this is the empty path, which has no components.
    pub fn is_empty(&self) -> (r: bool)
        ensures
            r == (self@.len() == 0),
    {
        self.parts.len() == 0
    }

    /// Whether the two paths have the same components.
    pub fn same_as(&self, other: &PathName) -> (r: bool)
        ensures
            r == (self@ == other@),
    {
        if self.parts.len() != other.parts.len() {
            assert(self@.len() != other@.len());
            return false;
        }
        let mut k: usize = 0;
        while k < self.parts.len()
            invariant
                k <= self.parts.len() == other.parts.len(),
                forall|m: int| 0 <= m < k ==> self@[m] == other@[m],
            decreases self.parts.len() - k,
        {
            if self.parts[k] != other.parts[k] {
                assert(self@[k as int] != other@[k as int]);
                return false;
            }
            k = k + 1;
        }
        assert(self@ =~= other@);
        true
    }

    /// Whether `base` is a leading run of this path's components.
    pub fn starts_with(&self, base: &PathName) -> (r: bool)
        ensures
            r == under(self@, base@),
    {
        if base.parts.len() > self.parts.len() {
            return false;
        }
        let mut k: usize = 0;
        while k < base.parts.len()
            invariant
                k <= base.parts.len() <= self.parts.len(),
                forall|m: int| 0 <= m < k ==> base@[m] == self@[m],
            decreases base.parts.len() - k,
        {
            if self.parts[k] != base.parts[k] {
                assert(base@[k as int] != self@[k as int]);
                return false;
            }
            k = k + 1;
        }
        true
    }

    /// The components after `base`, when this path lies under `base`.
    pub fn strip_prefix(&self, base: &PathName) -> (r: Option<PathName>)
        ensures
            r is Some <==> under(self@, base@),
            r matches Some(rest) ==> rest@ == self@.subrange(base@.len() as int, self@.len() as int),
    {
        if !self.starts_with(base) {
            return None;
        }
        let mut parts: Vec<String> = Vec::new();
        let mut k = base.parts.len();
        let ghost start = k as int;
        while k < self.parts.len()
            invariant
                start <= k <= self.parts.len(),
                start == base@.len(),
                texts(parts@) == self@.subrange(start, k as int),
            decreases self.parts.len() - k,
        {
            let ghost before = parts@;
            parts.push(self.parts[k].clone());
            assert(texts(parts@) =~= texts(before).push(self@[k as int]));
            assert(self@.subrange(start, k + 1) =~= self@.subrange(start, k as int).push(self@[k as int]));
            k = k + 1;
        }
        Some(PathName { parts })
    }

    /// The parent of this path, if it has one.
    pub fn parent(&self) -> (r: Option<PathName>)
        ensures
            r matches Some(p) ==> parent_of(self@) == Some(p@),
            r is None ==> parent_of(self@) is None,
    {
        let n = self.parts.len();
        if n == 0 {
            return None;
        }
        if n == 1 && is_root_text(&self.parts[0]) {
            assert(self@ =~= seq![root_part()]);
            return None;
        }
        assert(self@ != seq![root_part()]) by {
            if self@ == seq![root_part()] {
                assert(self@[0] == root_part());
            }
        }
        let mut parts = self.parts.clone();
        parts.pop();
        assert(texts(parts@) =~= self@.drop_last());
        Some(PathName { parts })
    }

    /// This path joined with `rest`.
    pub fn join(&self, rest: &PathName) -> (r: PathName)
        ensures
            r@ == joined_with(self@, rest@),
    {
        if rest.parts.len() > 0 && is_root_text(&rest.parts[0]) {
            return rest.duplicate();
        }
        assert(!(rest@.len() > 0 && rest@[0] == root_part()));
        let mut parts = self.parts.clone();
        let mut k: usize = 0;
        let ghost first = self@;
        assert(texts(parts@) =~= first);
        while k < rest.parts.len()
            invariant
                k <= rest.parts.len(),
                texts(parts@) == first + rest@.subrange(0, k as int),
            decreases rest.parts.len() - k,
        {
            let ghost before = parts@;
            parts.push(rest.parts[k].clone());
            assert(texts(parts@) =~= texts(before).push(rest@[k as int]));
            assert(rest@.subrange(0, k + 1) =~= rest@.subrange(0, k as int).push(rest@[k as int]));
            k = k + 1;
        }
        assert(rest@.subrange(0, k as int) =~= rest@);
        PathName { parts }
    }

    /// Every ancestor of this path, itself first.
    pub fn ancestors(&self) -> (r: Vec<PathName>)
        ensures
            r@.len() == all_ancestors(self@).len(),
            forall|k: int| 0 <= k < r@.len() ==> #[trigger] r@[k]@ == all_ancestors(self@)[k],
    {
        let n = self.parts.len();
        let absolute = n > 0 && is_root_text(&self.parts[0]);
        let lowest: usize = if absolute { 1 } else { 0 };
        let ghost want = all_ancestors(self@);
        let mut r: Vec<PathName> = Vec::new();
        let mut keep = n;
        let mut current = self.duplicate();
        assert(self@.subrange(0, n as int) =~= self@);
        loop
            invariant
                n == self@.len(),
                lowest as int == if self@.len() > 0 && self@[0] == root_part() { 1int } else { 0int },
                want == all_ancestors(self@),
                lowest <= keep <= n,
                current@ == self@.subrange(0, keep as int),
                r@.len() == n - keep,
                forall|k: int| 0 <= k < r@.len() ==> #[trigger] r@[k]@ == want[k],
            decreases keep,
        {
            r.push(current.duplicate());
            if keep == lowest {
                return r;
            }
            let mut parts = current.parts;
            let ghost before = parts@;
            assert(texts(before).len() == before.len());
            let _ = parts.pop();
            assert(parts@ =~= before.drop_last());
            current = PathName { parts };
            assert(current@ =~= texts(before).drop_last());
            assert(current@ =~= self@.subrange(0, keep - 1));
            keep = keep - 1;
        }
    }

    /// The ancestors strictly above this path that are not the empty path,
    /// nearest first.
    pub fn ancestors_above(&self) -> (r: Vec<PathName>)
        ensures
            r@.map_values(|a: PathName| a@) == ancestors_above(self@),
    {
        let mut r: Vec<PathName> = Vec::new();
        let n = self.parts.len();
        if n == 0 {
            assert(r@.map_values(|a: PathName| a@) =~= ancestors_above(self@));
            return r;
        }
        let mut keep = n - 1;
        let mut current = self.duplicate();
        while keep >= 1
            invariant
                n == self@.len(),
                0 <= keep < n,
                current@ == self@.subrange(0, keep + 1),
                r@.len() == n - 1 - keep,
                forall|k: int| 0 <= k < r@.len() ==> #[trigger] r@[k]@ == ancestors_above(self@)[k],
            decreases keep,
        {
            let mut parts = current.parts;
            let ghost before = parts@;
            assert(texts(before).len() == before.len());
            let _ = parts.pop();
            assert(parts@ =~= before.drop_last());
            let next = PathName { parts };
            assert(next@ =~= texts(before).drop_last());
            assert(next@ =~= self@.subrange(0, keep as int));
            r.push(next.duplicate());
            current = next;
            keep = keep - 1;
        }
        assert(r@.map_values(|a: PathName| a@) =~= ancestors_above(self@));
        r
    }
}

/// Appends `c`: `String::push`, which adds the character at the end.
#[verifier::external_body]
fn push_char(s: &mut String, c: char)
    ensures
        final(s)@ == old(s)@.push(c),
{
    s.push(c)
}

} // verus!
