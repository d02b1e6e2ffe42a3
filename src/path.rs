//! Hierarchical identifiers whose components are delimited by `::`.
use vstd::prelude::*;
use crate::table::strs;

verus! {

/// The two-character component separator, `::`.
pub open spec fn sep() -> Seq<char> {
    seq![':', ':']
}

/// A separator starts at position `i` of `s`.
pub open spec fn sep_at(s: Seq<char>, i: int) -> bool {
    0 <= i && i + 2 <= s.len() && s[i] == ':' && s[i + 1] == ':'
}

/// A path is absolute when its text begins with `::`.
pub open spec fn is_abs(s: Seq<char>) -> bool {
    sep_at(s, 0)
}

/// The root path is the text `::` alone.
pub open spec fn is_root(s: Seq<char>) -> bool {
    s == sep()
}

/// The position of the first separator of `u` that starts at `k` or later,
/// or -1 when there is none.
pub open spec fn first_sep_from(u: Seq<char>, k: int) -> int
    decreases u.len() - k,
{
    if k < 0 || k + 2 > u.len() {
        -1
    } else if sep_at(u, k) {
        k
    } else {
        first_sep_from(u, k + 1)
    }
}

/// The parts of `u` between its separators, read from the left: each
/// separator is taken at the first position where one starts.
pub open spec fn split_l(u: Seq<char>) -> Seq<Seq<char>>
    decreases u.len(),
{
    let i = first_sep_from(u, 0);
    if i < 0 || i + 2 > u.len() {
        seq![u]
    } else {
        seq![u.subrange(0, i)] + split_l(u.subrange(i + 2, u.len() as int))
    }
}

/// The components of a path: none for the root; otherwise its text, without
/// the leading `::` of an absolute path, split at its separators.
///
/// A single colon is no separator: `agent:completion` is one component. In a
/// run of three or more colons the first two separate, so `a:::b` has the
/// components `a` and `:b`.
pub open spec fn components(s: Seq<char>) -> Seq<Seq<char>> {
    if is_root(s) {
        Seq::empty()
    } else if is_abs(s) {
        split_l(s.subrange(2, s.len() as int))
    } else {
        split_l(s)
    }
}

/// `::` for an absolute path, nothing for a relative one.
pub open spec fn head_of(s: Seq<char>) -> Seq<char> {
    if is_abs(s) {
        sep()
    } else {
        Seq::empty()
    }
}

/// The last component of a path.
pub open spec fn last_component(s: Seq<char>) -> Seq<char> {
    components(s).last()
}

/// The parent of a path: the path without its last component; the root for
/// an absolute path of one component; none for the root or a relative path
/// of one component.
pub open spec fn parent_of(s: Seq<char>) -> Option<Seq<char>> {
    let c = components(s);
    if is_root(s) || (!is_abs(s) && c.len() <= 1) {
        None
    } else if c.len() <= 1 {
        Some(sep())
    } else {
        Some(head_of(s) + join_all(c.drop_last()))
    }
}

/// `b` appended to `a` as further components; none when `b` is absolute.
pub open spec fn join_of(a: Seq<char>, b: Seq<char>) -> Option<Seq<char>> {
    if is_abs(b) {
        None
    } else if is_root(a) {
        Some(a + b)
    } else {
        Some(a + sep() + b)
    }
}

/// `s` has the absoluteness of `p` and its components begin with those of `p`.
pub open spec fn starts_with_of(s: Seq<char>, p: Seq<char>) -> bool {
    let cs = components(s);
    let cp = components(p);
    is_abs(s) == is_abs(p) && cp.len() <= cs.len() && cs.subrange(0, cp.len() as int) == cp
}

/// A fragment handed to `from_iter` besides a leading root: not empty, no colon.
pub open spec fn fragment_ok(f: Seq<char>) -> bool {
    f.len() > 0 && forall|i: int| 0 <= i < f.len() ==> f[i] != ':'
}

/// The fragments joined with `::` between each two.
pub open spec fn join_all(parts: Seq<Seq<char>>) -> Seq<char>
    decreases parts.len(),
{
    if parts.len() == 0 {
        Seq::empty()
    } else if parts.len() == 1 {
        parts[0]
    } else {
        join_all(parts.drop_last()) + sep() + parts.last()
    }
}

/// Why a path could not be built.
#[derive(Debug, Clone, Copy, PartialEq, Eq)]
pub enum PathError {
    /// The text, or the list of fragments, is empty.
    Empty,
    /// The right-hand side of a join is absolute.
    JoinAbsolute,
    /// The fragment at `index` is the root but is not the first one.
    RootNotFirst { index: usize },
    /// The fragment at `index` is empty or holds a colon.
    InvalidFragment { index: usize },
}

/// The error, if any, that the fragment at `k` causes.
pub open spec fn fragment_error(parts: Seq<Seq<char>>, k: int) -> Option<PathError> {
    if k == 0 && is_root(parts[0]) {
        None
    } else if is_root(parts[k]) {
        Some(PathError::RootNotFirst { index: k as usize })
    } else if !fragment_ok(parts[k]) {
        Some(PathError::InvalidFragment { index: k as usize })
    } else {
        None
    }
}

/// The first error caused by a fragment at `k` or later.
pub open spec fn first_error_from(parts: Seq<Seq<char>>, k: int) -> Option<PathError>
    decreases parts.len() - k,
{
    if k < 0 || k >= parts.len() {
        None
    } else {
        match fragment_error(parts, k) {
            Some(e) => Some(e),
            None => first_error_from(parts, k + 1),
        }
    }
}

/// What `from_iter` builds from the fragments.
pub open spec fn from_parts_of(parts: Seq<Seq<char>>) -> Result<Seq<char>, PathError> {
    if parts.len() == 0 {
        Err(PathError::Empty)
    } else {
        match first_error_from(parts, 0) {
            Some(e) => Err(e),
            None => if is_root(parts[0]) {
                Ok(sep() + join_all(parts.drop_first()))
            } else {
                Ok(join_all(parts))
            },
        }
    }
}

/// The texts of a list of string slices.
pub open spec fn texts(parts: Seq<&str>) -> Seq<Seq<char>> {
    parts.map_values(|p: &str| p@)
}

/// A `::`-delimited identifier; its text is never empty.
pub struct Path {
    text: String,
}

impl View for Path {
    type V = Seq<char>;

    closed spec fn view(&self) -> Seq<char> {
        self.text@
    }
}

/// A join is at least as long as its first fragment.
proof fn lemma_join_all_len(parts: Seq<Seq<char>>)
    requires
        parts.len() > 0,
    ensures
        join_all(parts).len() >= parts[0].len(),
    decreases parts.len(),
{
    if parts.len() > 1 {
        lemma_join_all_len(parts.drop_last());
    }
}

/// `first_sep_from` finds a separator at `k` or later, and the first one.
pub proof fn lemma_first_sep(u: Seq<char>, k: int)
    requires
        0 <= k,
    ensures
        first_sep_from(u, k) == -1 || (k <= first_sep_from(u, k) && sep_at(
            u,
            first_sep_from(u, k),
        )),
        forall|j: int|
            k <= j && (first_sep_from(u, k) < 0 || j < first_sep_from(u, k)) ==> !#[trigger] sep_at(
                u,
                j,
            ),
    decreases u.len() - k,
{
    if k + 2 <= u.len() && !sep_at(u, k) {
        lemma_first_sep(u, k + 1);
    }
}

proof fn lemma_first_sep_is(u: Seq<char>, k: int, i: int)
    requires
        0 <= k <= i,
        sep_at(u, i),
        forall|j: int| k <= j < i ==> !#[trigger] sep_at(u, j),
    ensures
        first_sep_from(u, k) == i,
    decreases i - k,
{
    if k < i {
        assert(!sep_at(u, k));
        lemma_first_sep_is(u, k + 1, i);
    }
}

/// Splitting `a`, a separator and `b` splits `a` and `b` apart, where `a` does
/// not end with a colon.
proof fn lemma_split_concat(a: Seq<char>, b: Seq<char>)
    requires
        a.len() > 0,
        a.last() != ':',
    ensures
        split_l(a + sep() + b) == split_l(a) + split_l(b),
    decreases a.len(),
{
    let u = a + sep() + b;
    lemma_first_sep(a, 0);
    let i = first_sep_from(a, 0);
    assert forall|j: int| 0 <= j && j + 2 <= a.len() implies #[trigger] sep_at(u, j) == sep_at(
        a,
        j,
    ) by {}
    if i >= 0 {
        assert forall|j: int| 0 <= j < i implies !#[trigger] sep_at(u, j) by {
            assert(!sep_at(a, j));
        }
        lemma_first_sep_is(u, 0, i);
        let a2 = a.subrange(i + 2, a.len() as int);
        assert(a2.len() > 0);
        assert(a2.last() == a.last());
        lemma_split_concat(a2, b);
        assert(u.subrange(0, i) =~= a.subrange(0, i));
        assert(u.subrange(i + 2, u.len() as int) =~= a2 + sep() + b);
        assert(split_l(u) =~= split_l(a) + split_l(b));
    } else {
        let n = a.len() as int;
        assert forall|j: int| 0 <= j < n implies !#[trigger] sep_at(u, j) by {
            if j + 2 <= n {
                assert(!sep_at(a, j));
            } else {
                assert(u[j] == a.last());
            }
        }
        assert(sep_at(u, n));
        lemma_first_sep_is(u, 0, n);
        assert(u.subrange(0, n) =~= a);
        assert(u.subrange(n + 2, u.len() as int) =~= b);
        assert(split_l(u) =~= split_l(a) + split_l(b));
    }
}

proof fn lemma_join_all_cons(x: Seq<char>, r: Seq<Seq<char>>)
    requires
        r.len() > 0,
    ensures
        join_all(seq![x] + r) == x + sep() + join_all(r),
    decreases r.len(),
{
    let xs = seq![x] + r;
    assert(xs.last() == r.last());
    if r.len() == 1 {
        assert(xs.drop_last() =~= seq![x]);
        assert(join_all(seq![x]) == x);
        assert(join_all(r) == r[0]);
    } else {
        lemma_join_all_cons(x, r.drop_last());
        assert(xs.drop_last() =~= seq![x] + r.drop_last());
        assert(join_all(r) == join_all(r.drop_last()) + sep() + r.last());
        assert(join_all(xs) =~= x + sep() + join_all(r));
    }
}

/// Joining the parts of a split gives the text back; there is at least one
/// part; the last holds no separator; the first is empty only when the text
/// starts with a separator.
pub proof fn lemma_split_join(u: Seq<char>)
    ensures
        join_all(split_l(u)) == u,
        split_l(u).len() >= 1,
        forall|j: int| !#[trigger] sep_at(split_l(u).last(), j),
        u.len() > 0 && !sep_at(u, 0) ==> split_l(u)[0].len() > 0,
    decreases u.len(),
{
    lemma_first_sep(u, 0);
    let i = first_sep_from(u, 0);
    if i >= 0 {
        let rest = u.subrange(i + 2, u.len() as int);
        lemma_split_join(rest);
        let parts = split_l(u);
        assert(parts == seq![u.subrange(0, i)] + split_l(rest));
        lemma_join_all_cons(u.subrange(0, i), split_l(rest));
        assert(join_all(parts) =~= u);
        assert(parts.last() == split_l(rest).last());
    } else {
        assert forall|j: int| !#[trigger] sep_at(split_l(u).last(), j) by {
            if sep_at(u, j) {
                assert(0 <= j);
            }
        }
    }
}

fn sep_at_exec(s: &str, n: usize, i: usize) -> (r: bool)
    requires
        n == s@.len(),
    ensures
        r == sep_at(s@, i as int),
{
    if i < n && n - i >= 2 {
        s.get_char(i) == ':' && s.get_char(i + 1) == ':'
    } else {
        false
    }
}

/// The parts of `t` between its separators, read from the left.
fn split_exec(t: &str) -> (r: Vec<String>)
    ensures
        strs(r@) == split_l(t@),
{
    let n = t.unicode_len();
    let mut out: Vec<String> = Vec::new();
    let mut start: usize = 0;
    let mut i: usize = 0;
    assert(t@.subrange(0, n as int) =~= t@);
    assert(strs(out@) + split_l(t@) =~= split_l(t@));
    while i < n
        invariant
            start <= i <= n == t@.len(),
            strs(out@) + split_l(t@.subrange(start as int, n as int)) == split_l(t@),
            first_sep_from(t@.subrange(start as int, n as int), 0) == first_sep_from(
                t@.subrange(start as int, n as int),
                i - start,
            ),
        decreases n - i,
    {
        let ghost rem = t@.subrange(start as int, n as int);
        if sep_at_exec(t, n, i) {
            proof {
                let k = i - start;
                assert(sep_at(rem, k));
                assert(first_sep_from(rem, 0) == k);
                assert(rem.subrange(0, k) =~= t@.subrange(start as int, i as int));
                assert(rem.subrange(k + 2, rem.len() as int) =~= t@.subrange(
                    i + 2,
                    n as int,
                ));
            }
            let part = String::from_str(t.substring_char(start, i));
            let ghost before = strs(out@);
            out.push(part);
            assert(strs(out@) =~= before.push(t@.subrange(start as int, i as int)));
            proof {
                assert(before + split_l(rem) =~= strs(out@) + split_l(
                    t@.subrange(i + 2, n as int),
                ));
            }
            i = i + 2;
            start = i;
        } else {
            assert(!sep_at(rem, i - start));
            i = i + 1;
        }
    }
    let ghost rem = t@.subrange(start as int, n as int);
    assert(first_sep_from(rem, 0) == -1);
    let ghost before = strs(out@);
    out.push(String::from_str(t.substring_char(start, n)));
    assert(strs(out@) =~= before.push(rem));
    assert(before + split_l(rem) =~= strs(out@));
    out
}

/// The first `k` parts joined with `::`, after `::` when `abs` holds.
fn join_parts(abs: bool, parts: &Vec<String>, k: usize) -> (r: String)
    requires
        k <= parts@.len(),
    ensures
        r@ == (if abs {
            sep()
        } else {
            Seq::<char>::empty()
        }) + join_all(strs(parts@).subrange(0, k as int)),
{
    proof {
        reveal_strlit("::");
    }
    let ghost ps = strs(parts@);
    let ghost head: Seq<char> = if abs {
        sep()
    } else {
        Seq::empty()
    };
    let mut t = if abs {
        String::from_str("::")
    } else {
        String::new()
    };
    assert(t@ =~= head + join_all(ps.subrange(0, 0)));
    let mut q: usize = 0;
    while q < k
        invariant
            q <= k <= parts@.len(),
            ps == strs(parts@),
            t@ == head + join_all(ps.subrange(0, q as int)),
        decreases k - q,
    {
        let ghost nx = ps.subrange(0, q as int + 1);
        assert(nx.drop_last() =~= ps.subrange(0, q as int));
        if q > 0 {
            proof {
                reveal_strlit("::");
            }
            assert("::"@ =~= sep());
            t.append("::");
        }
        t.append(parts[q].as_str());
        assert(t@ =~= head + join_all(nx));
        q = q + 1;
    }
    t
}

impl Path {
    /// The text of the path is not empty.
    pub open spec fn wf(&self) -> bool {
        self@.len() > 0
    }

    /// Parses a path: any text that is not empty.
    pub fn try_from(s: &str) -> (r: Result<Path, PathError>)
        ensures
            s@.len() == 0 <==> r is Err,
            r is Err ==> r->Err_0 == PathError::Empty,
            r is Ok ==> r->Ok_0@ == s@ && r->Ok_0.wf(),
    {
        if s.unicode_len() == 0 {
            Err(PathError::Empty)
        } else {
            Ok(Path { text: String::from_str(s) })
        }
    }

    /// The text of the path.
    pub fn inner(&self) -> (r: &str)
        ensures
            r@ == self@,
    {
        self.text.as_str()
    }

    /// Whether the path begins with `::`.
    pub fn is_absolute(&self) -> (r: bool)
        ensures
            r == is_abs(self@),
    {
        let s = self.text.as_str();
        let n = s.unicode_len();
        sep_at_exec(s, n, 0)
    }

    /// Whether the path does not begin with `::`.
    pub fn is_relative(&self) -> (r: bool)
        ensures
            r == !is_abs(self@),
    {
        !self.is_absolute()
    }

    /// The path without its last component.
    pub fn parent(&self) -> (r: Option<Path>)
        ensures
            r is Some <==> parent_of(self@) is Some,
            r is Some ==> r->0@ == parent_of(self@)->0 && r->0.wf(),
    {
        let n = self.text.as_str().unicode_len();
        let abs = self.is_absolute();
        proof {
            reveal_strlit("::");
        }
        if n == 2 && abs {
            assert(self@ =~= sep());
            return None;
        }
        assert(!is_root(self@)) by {
            if is_root(self@) {
                assert(self@.len() == 2 && sep_at(self@, 0));
            }
        };
        let c = self.components();
        let m = c.len();
        let ghost body = if abs {
            self@.subrange(2, self@.len() as int)
        } else {
            self@
        };
        proof {
            lemma_split_join(body);
        }
        if m <= 1 {
            if abs {
                return Some(Path { text: String::from_str("::") });
            } else {
                return None;
            }
        }
        let t = join_parts(abs, &c, m - 1);
        proof {
            let cs = strs(c@);
            assert(cs.subrange(0, m - 1) =~= cs.drop_last());
            if !abs {
                assert(cs.drop_last()[0] == cs[0]);
                lemma_join_all_len(cs.drop_last());
            }
        }
        Some(Path { text: t })
    }

    /// The components of the path (see `components`).
    pub fn components(&self) -> (r: Vec<String>)
        ensures
            strs(r@) == components(self@),
    {
        let s = self.text.as_str();
        let n = s.unicode_len();
        proof {
            reveal_strlit("::");
        }
        if n == 2 && sep_at_exec(s, n, 0) {
            assert(s@ =~= sep());
            let r: Vec<String> = Vec::new();
            assert(strs(r@) =~= Seq::<Seq<char>>::empty());
            return r;
        }
        assert(!is_root(s@)) by {
            if is_root(s@) {
                assert(s@.len() == 2 && sep_at(s@, 0));
            }
        };
        if sep_at_exec(s, n, 0) {
            split_exec(s.substring_char(2, n))
        } else {
            split_exec(s)
        }
    }

    /// This path followed by the components of `other`; fails when `other` is absolute.
    pub fn join(&self, other: Path) -> (r: Result<Path, PathError>)
        ensures
            r is Ok <==> join_of(self@, other@) is Some,
            r is Ok ==> r->Ok_0@ == join_of(self@, other@)->0 && r->Ok_0.wf(),
            r is Err ==> r->Err_0 == PathError::JoinAbsolute,
    {
        if other.is_absolute() {
            return Err(PathError::JoinAbsolute);
        }
        proof {
            reveal_strlit("::");
        }
        let root = self.text.as_str().unicode_len() == 2 && self.is_absolute();
        let mut t = String::from_str(self.inner());
        if !root {
            t.append("::");
        }
        t.append(other.inner());
        proof {
            if root {
                assert(self@ =~= sep());
            }
        }
        Ok(Path { text: t })
    }

    /// Whether this path has the absoluteness of `prefix` and its components
    /// begin with those of `prefix`.
    pub fn starts_with(&self, prefix: Path) -> (r: bool)
        ensures
            r == starts_with_of(self@, prefix@),
    {
        if self.is_absolute() != prefix.is_absolute() {
            return false;
        }
        let cs = self.components();
        let cp = prefix.components();
        let ghost vs = strs(cs@);
        let ghost vp = strs(cp@);
        if cp.len() > cs.len() {
            return false;
        }
        let mut k: usize = 0;
        while k < cp.len()
            invariant
                k <= cp@.len() <= cs@.len(),
                vs == strs(cs@),
                vp == strs(cp@),
                vs == components(self@),
                vp == components(prefix@),
                is_abs(self@) == is_abs(prefix@),
                forall|j: int| 0 <= j < k ==> vs[j] == vp[j],
            decreases cp@.len() - k,
        {
            assert(vs[k as int] == cs@[k as int]@ && vp[k as int] == cp@[k as int]@);
            if !cs[k].eq(&cp[k]) {
                assert(vs.subrange(0, vp.len() as int)[k as int] != vp[k as int]);
                return false;
            }
            k = k + 1;
        }
        assert(vs.subrange(0, vp.len() as int) =~= vp);
        true
    }

    /// Builds a path from fragments: an optional leading root `::`, then
    /// fragments without colons, joined with `::`.
    pub fn from_iter(parts: &Vec<&str>) -> (r: Result<Path, PathError>)
        ensures
            r is Ok <==> from_parts_of(texts(parts@)) is Ok,
            r is Ok ==> r->Ok_0@ == from_parts_of(texts(parts@))->Ok_0 && r->Ok_0.wf(),
            r is Err ==> r->Err_0 == from_parts_of(texts(parts@))->Err_0,
    {
        let ghost ts = texts(parts@);
        let len = parts.len();
        if len == 0 {
            return Err(PathError::Empty);
        }
        proof {
            reveal_strlit("::");
        }
        let first = parts[0];
        let root = first.unicode_len() == 2 && sep_at_exec(first, 2, 0);
        assert(root == is_root(ts[0])) by {
            if is_root(ts[0]) {
                assert(ts[0] == first@);
            }
            if root {
                assert(first@ =~= sep());
            }
        };
        let mut i: usize = 0;
        while i < len
            invariant
                i <= len == parts@.len() == ts.len(),
                ts == texts(parts@),
                root == is_root(ts[0]),
                first_error_from(ts, 0) == first_error_from(ts, i as int),
            decreases len - i,
        {
            let f = parts[i];
            let fl = f.unicode_len();
            assert(f@ == ts[i as int]);
            let is_r = fl == 2 && sep_at_exec(f, fl, 0);
            assert(is_r == is_root(ts[i as int])) by {
                if is_r {
                    assert(f@ =~= sep());
                }
            };
            if !(i == 0 && root) {
                if is_r {
                    return Err(PathError::RootNotFirst { index: i });
                }
                if fl == 0 {
                    return Err(PathError::InvalidFragment { index: i });
                }
                let mut j: usize = 0;
                while j < fl
                    invariant
                        i < len == ts.len(),
                        f@ == ts[i as int],
                        !is_root(ts[i as int]),
                        !(i == 0 && is_root(ts[0])),
                        ts == texts(parts@),
                        first_error_from(ts, 0) == first_error_from(ts, i as int),
                        j <= fl == f@.len(),
                        forall|q: int| 0 <= q < j ==> f@[q] != ':',
                    decreases fl - j,
                {
                    if f.get_char(j) == ':' {
                        assert(!fragment_ok(ts[i as int]));
                        assert(fragment_error(ts, i as int) == Some(
                            PathError::InvalidFragment { index: i },
                        ));
                        return Err(PathError::InvalidFragment { index: i });
                    }
                    j = j + 1;
                }
            }
            i = i + 1;
        }
        let start: usize = if root { 1 } else { 0 };
        let mut t = if root { String::from_str("::") } else { String::new() };
        let ghost head: Seq<char> = if root { sep() } else { Seq::empty() };
        let mut k: usize = start;
        while k < len
            invariant
                start <= k <= len == parts@.len() == ts.len(),
                ts == texts(parts@),
                t@ == head + join_all(ts.subrange(start as int, k as int)),
            decreases len - k,
        {
            let f = parts[k];
            let ghost nx = ts.subrange(start as int, k as int + 1);
            assert(nx.drop_last() =~= ts.subrange(start as int, k as int));
            assert(nx.last() == f@);
            if k > start {
                proof {
                    reveal_strlit("::");
                }
                assert("::"@ =~= sep());
                t.append("::");
            } else {
                assert(ts.subrange(start as int, k as int) =~= Seq::<Seq<char>>::empty());
            }
            t.append(f);
            assert(t@ =~= head + join_all(nx));
            k = k + 1;
        }
        proof {
            if root {
                assert(ts.subrange(1, len as int) =~= ts.drop_first());
            } else {
                assert(ts.subrange(0, len as int) =~= ts);
                assert(fragment_error(ts, 0) is None);
                assert(fragment_ok(ts[0]));
                lemma_join_all_len(ts);
            }
        }
        Ok(Path { text: t })
    }
}

/// A successful join starts with its left-hand side, unless that side ends
/// with a colon without being the root: `x:` joined with `y` reads `x:::y`,
/// whose components are `x` and `:y`.
pub proof fn law_join_starts_with(a: Path, b: Path)
    requires
        a.wf(),
        b.wf(),
        is_root(a@) || a@.last() != ':',
        join_of(a@, b@) is Some,
    ensures
        starts_with_of(join_of(a@, b@)->0, a@),
{
    let j = join_of(a@, b@)->0;
    if is_root(a@) {
        assert(j[0] == ':' && j[1] == ':');
        assert(!is_root(j)) by {
            if is_root(j) {
                assert(j.len() == 2);
            }
        };
        assert(components(a@) =~= Seq::<Seq<char>>::empty());
        assert(components(j).subrange(0, 0) =~= Seq::<Seq<char>>::empty());
    } else {
        assert(j =~= a@ + sep() + b@);
        assert(!is_root(j)) by {
            if is_root(j) {
                assert(j.len() == 2);
            }
        };
        if is_abs(a@) {
            let a2 = a@.subrange(2, a@.len() as int);
            assert(a2.len() > 0) by {
                if a2.len() == 0 {
                    assert(a@ =~= sep());
                }
            };
            assert(a2.last() == a@.last());
            assert(j.subrange(2, j.len() as int) =~= a2 + sep() + b@);
            assert(j[0] == a@[0] && j[1] == a@[1]);
            lemma_split_concat(a2, b@);
        } else {
            if a@.len() >= 2 {
                assert(j[0] == a@[0] && j[1] == a@[1]);
            } else {
                assert(j[0] == a@.last());
            }
            lemma_split_concat(a@, b@);
        }
        let ca = components(a@);
        assert(components(j).subrange(0, ca.len() as int) =~= ca);
    }
}

/// Joining the parent of a path with its last component gives the path back,
/// where that component is not empty and the parent is the root only when the
/// path has a single component.
pub proof fn law_parent_join(p: Path)
    requires
        p.wf(),
        parent_of(p@) is Some,
        last_component(p@).len() > 0,
        parent_of(p@)->0 == sep() ==> components(p@).len() == 1,
    ensures
        join_of(parent_of(p@)->0, last_component(p@)) == Some(p@),
{
    let s = p@;
    let body = if is_abs(s) {
        s.subrange(2, s.len() as int)
    } else {
        s
    };
    lemma_split_join(body);
    let c = components(s);
    let q = parent_of(s)->0;
    assert(!is_abs(c.last())) by {
        assert(!sep_at(c.last(), 0));
    };
    if c.len() <= 1 {
        assert(c == split_l(body));
        assert(join_all(c) == c[0]);
        assert(sep() + c.last() =~= s);
    } else {
        assert(!is_root(q));
        assert(c == split_l(body));
        assert(join_all(c) == join_all(c.drop_last()) + sep() + c.last());
        assert(s =~= head_of(s) + body);
        assert(q + sep() + c.last() =~= s);
    }
}

} // verus!
