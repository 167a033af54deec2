//! Unix paths as text: their components, comparison by components, and
//! joining.
//!
//! A path is split at `/` into components the way the platform does it: a
//! leading `/` is the root, a leading `.` segment is the current directory,
//! empty and other `.` segments vanish, and `..` is the parent directory.
use vstd::prelude::*;

use crate::text::{chars_of, string_of};

verus! {

/// One component of a path, as a value.
pub enum Part {
    RootDir,
    CurDir,
    ParentDir,
    Normal(Seq<char>),
}

/// The parts that one segment between separators contributes.
pub open spec fn segment_parts(seg: Seq<char>) -> Seq<Part> {
    if seg.len() == 0 || seg =~= seq!['.'] {
        seq![]
    } else if seg =~= seq!['.', '.'] {
        seq![Part::ParentDir]
    } else {
        seq![Part::Normal(seg)]
    }
}

/// The parts of the segments of `p`, where `cur` is the text of the segment
/// read so far, just before `p`.
pub open spec fn segments_from(p: Seq<char>, cur: Seq<char>) -> Seq<Part>
    decreases p.len(),
{
    if p.len() == 0 {
        segment_parts(cur)
    } else if p[0] == '/' {
        segment_parts(cur) + segments_from(p.drop_first(), seq![])
    } else {
        segments_from(p.drop_first(), cur.push(p[0]))
    }
}

/// The parts of all the `/`-separated segments of `p`.
pub open spec fn body_parts(p: Seq<char>) -> Seq<Part> {
    segments_from(p, seq![])
}

/// Whether `p` starts with a `.` segment (`.` alone, or `./...`).
pub open spec fn begins_with_cur_dir(p: Seq<char>) -> bool {
    p.len() > 0 && p[0] == '.' && (p.len() == 1 || p[1] == '/')
}

/// The part that the start of `p` contributes besides its segments.
pub open spec fn leading_parts(p: Seq<char>) -> Seq<Part> {
    if p.len() > 0 && p[0] == '/' {
        seq![Part::RootDir]
    } else if begins_with_cur_dir(p) {
        seq![Part::CurDir]
    } else {
        seq![]
    }
}

/// The components of the path `p`.
pub open spec fn components(p: Seq<char>) -> Seq<Part> {
    leading_parts(p) + body_parts(p)
}

/// `p` without its leading empty and `.` segments.
pub open spec fn trim_front(p: Seq<char>) -> Seq<char>
    decreases p.len(),
{
    if p.len() == 0 {
        p
    } else if p[0] == '/' {
        trim_front(p.drop_first())
    } else if p =~= seq!['.'] {
        seq![]
    } else if p.len() >= 2 && p[0] == '.' && p[1] == '/' {
        trim_front(p.subrange(2, p.len() as int))
    } else {
        p
    }
}

/// `p` without its trailing empty and `.` segments.
pub open spec fn trim_back(p: Seq<char>) -> Seq<char>
    decreases p.len(),
{
    if p.len() == 0 {
        p
    } else if p.last() == '/' {
        trim_back(p.drop_last())
    } else if p =~= seq!['.'] {
        seq![]
    } else if p.len() >= 2 && p.last() == '.' && p[p.len() - 2] == '/' {
        trim_back(p.subrange(0, p.len() - 2))
    } else {
        p
    }
}

/// What is left of `p` once its root is taken off: `None` for a relative
/// path, else the text after the root without leading and trailing empty
/// or `.` segments.
pub open spec fn without_root(p: Seq<char>) -> Option<Seq<char>> {
    if p.len() > 0 && p[0] == '/' {
        Some(trim_back(trim_front(p.drop_first())))
    } else {
        None
    }
}

/// `more` appended to `base` as a path: an absolute `more` replaces
/// `base`; otherwise a separator goes between them unless `base` is empty
/// or already ends with one.
pub open spec fn joined(base: Seq<char>, more: Seq<char>) -> Seq<char> {
    if more.len() > 0 && more[0] == '/' {
        more
    } else if base.len() > 0 && base.last() != '/' {
        base + seq!['/'] + more
    } else {
        base + more
    }
}

/// `right` made relative: its root taken off, if it has one.
pub open spec fn relative_part(right: Seq<char>) -> Seq<char> {
    match without_root(right) {
        Some(rest) => rest,
        None => right,
    }
}

/// One component of a path, held in memory.
pub enum Component {
    RootDir,
    CurDir,
    ParentDir,
    Normal(Vec<char>),
}

impl View for Component {
    type V = Part;

    open spec fn view(&self) -> Part {
        match self {
            Component::RootDir => Part::RootDir,
            Component::CurDir => Part::CurDir,
            Component::ParentDir => Part::ParentDir,
            Component::Normal(v) => Part::Normal(v@),
        }
    }
}

pub open spec fn parts_of(v: Seq<Component>) -> Seq<Part> {
    v.map_values(|c: Component| c@)
}

proof fn lemma_parts_of_push(v: Seq<Component>, c: Component)
    ensures
        parts_of(v.push(c)) == parts_of(v).push(c@),
{
    assert(parts_of(v.push(c)) =~= parts_of(v).push(c@));
}

/// Appends to `out` the parts that the segment `seg` contributes.
fn push_segment(out: &mut Vec<Component>, seg: Vec<char>)
    ensures
        parts_of(final(out)@) == parts_of(old(out)@) + segment_parts(seg@),
{
    let n = seg.len();
    if n == 0 || (n == 1 && seg[0] == '.') {
        assert(segment_parts(seg@) =~= seq![]);
        assert(parts_of(out@) + seq![] =~= parts_of(out@));
    } else if n == 2 && seg[0] == '.' && seg[1] == '.' {
        assert(seg@ =~= seq!['.', '.']);
        proof {
            lemma_parts_of_push(out@, Component::ParentDir);
        }
        out.push(Component::ParentDir);
        assert(parts_of(old(out)@).push(Part::ParentDir) =~= parts_of(old(out)@) + segment_parts(
            seg@,
        ));
    } else {
        assert(!(seg@ =~= seq!['.']) && !(seg@ =~= seq!['.', '.'])) by {
            if seg@ =~= seq!['.'] {
                assert(seg@[0] == '.');
            }
            if seg@ =~= seq!['.', '.'] {
                assert(seg@[0] == '.' && seg@[1] == '.');
            }
        }
        let ghost sv = seg@;
        proof {
            lemma_parts_of_push(out@, Component::Normal(seg));
        }
        out.push(Component::Normal(seg));
        assert(parts_of(old(out)@).push(Part::Normal(sv)) =~= parts_of(old(out)@)
            + segment_parts(sv));
    }
}

/// The components of the path whose characters are `p`.
pub fn components_of(p: &Vec<char>) -> (out: Vec<Component>)
    ensures
        parts_of(out@) == components(p@),
{
    let n = p.len();
    let mut out: Vec<Component> = Vec::new();
    if n > 0 && p[0] == '/' {
        out.push(Component::RootDir);
    } else if n > 0 && p[0] == '.' && (n == 1 || p[1] == '/') {
        out.push(Component::CurDir);
    }
    assert(parts_of(out@) =~= leading_parts(p@));
    assert(p@.skip(0) =~= p@);
    let mut cur: Vec<char> = Vec::new();
    let mut i: usize = 0;
    while i < n
        invariant
            0 <= i <= n,
            n == p@.len(),
            parts_of(out@) + segments_from(p@.skip(i as int), cur@) == components(p@),
        decreases n - i,
    {
        let c = p[i];
        let ghost rest = p@.skip(i as int);
        assert(rest[0] == c);
        assert(rest.drop_first() =~= p@.skip(i + 1));
        if c == '/' {
            let ghost before = parts_of(out@);
            let ghost seg = cur@;
            push_segment(&mut out, cur);
            cur = Vec::new();
            assert(cur@ =~= seq![]);
            assert(before + (segment_parts(seg) + segments_from(p@.skip(i + 1), seq![])) =~= (
            before + segment_parts(seg)) + segments_from(p@.skip(i + 1), seq![]));
        } else {
            cur.push(c);
        }
        i = i + 1;
    }
    assert(p@.skip(n as int) =~= seq![]);
    push_segment(&mut out, cur);
    out
}

/// Whether two components are the same.
fn same_component(a: &Component, b: &Component) -> (same: bool)
    ensures
        same == (a@ == b@),
{
    match a {
        Component::Normal(x) => match b {
            Component::Normal(y) => same_chars(x, y),
            _ => false,
        },
        Component::RootDir => match b {
            Component::RootDir => true,
            _ => false,
        },
        Component::CurDir => match b {
            Component::CurDir => true,
            _ => false,
        },
        Component::ParentDir => match b {
            Component::ParentDir => true,
            _ => false,
        },
    }
}

/// Whether two character sequences are equal.
pub fn same_chars(x: &Vec<char>, y: &Vec<char>) -> (same: bool)
    ensures
        same == (x@ == y@),
{
    if x.len() != y.len() {
        return false;
    }
    let mut i: usize = 0;
    while i < x.len()
        invariant
            0 <= i <= x@.len(),
            x@.len() == y@.len(),
            forall|j: int| 0 <= j < i ==> x@[j] == y@[j],
        decreases x@.len() - i,
    {
        if x[i] != y[i] {
            assert(x@[i as int] != y@[i as int]);
            return false;
        }
        i = i + 1;
    }
    assert(x@ =~= y@);
    true
}

/// Whether the components `base` are the first components of `path`.
fn parts_prefix(base: &Vec<Component>, path: &Vec<Component>) -> (prefix: bool)
    ensures
        prefix == parts_of(base@).is_prefix_of(parts_of(path@)),
{
    if base.len() > path.len() {
        return false;
    }
    let mut i: usize = 0;
    while i < base.len()
        invariant
            0 <= i <= base@.len() <= path@.len(),
            forall|j: int| 0 <= j < i ==> base@[j]@ == path@[j]@,
        decreases base@.len() - i,
    {
        if !same_component(&base[i], &path[i]) {
            assert(parts_of(base@)[i as int] != parts_of(path@)[i as int]);
            return false;
        }
        i = i + 1;
    }
    assert(parts_of(base@) =~= parts_of(path@).subrange(0, base@.len() as int));
    true
}

/// Whether the path `path` lies under `base`: the components of `base` are
/// the first components of `path`.
pub fn path_starts_with(path: &str, base: &str) -> (under: bool)
    ensures
        under == components(base@).is_prefix_of(components(path@)),
{
    let pc = components_of(&chars_of(path));
    let bc = components_of(&chars_of(base));
    parts_prefix(&bc, &pc)
}

/// Whether two paths name the same place: they have the same components.
pub fn path_eq(a: &str, b: &str) -> (same: bool)
    ensures
        same == (components(a@) == components(b@)),
{
    let ac = components_of(&chars_of(a));
    let bc = components_of(&chars_of(b));
    if ac.len() != bc.len() {
        assert(parts_of(ac@).len() != parts_of(bc@).len());
        return false;
    }
    let same = parts_prefix(&ac, &bc);
    if same {
        assert(parts_of(ac@) =~= parts_of(bc@));
    }
    same
}

/// The characters `v[lo..hi]` without their leading and trailing empty and
/// `.` segments, as the bounds of what is left.
fn trim_bounds(v: &Vec<char>, lo: usize, hi: usize) -> (r: (usize, usize))
    requires
        lo <= hi <= v@.len(),
    ensures
        lo <= r.0 <= r.1 <= hi,
        v@.subrange(r.0 as int, r.1 as int) == trim_back(trim_front(v@.subrange(lo as int, hi as int))),
{
    let mut a = lo;
    let mut go = true;
    while go && a < hi
        invariant
            lo <= a <= hi <= v@.len(),
            trim_front(v@.subrange(lo as int, hi as int)) == trim_front(v@.subrange(a as int, hi as int)),
            !go ==> trim_front(v@.subrange(a as int, hi as int)) == v@.subrange(a as int, hi as int),
        decreases (hi - a) * 2 + if go { 1int } else { 0int },
    {
        let ghost q = v@.subrange(a as int, hi as int);
        if v[a] == '/' {
            assert(q.drop_first() =~= v@.subrange(a + 1, hi as int));
            a = a + 1;
        } else if a + 1 == hi && v[a] == '.' {
            assert(q =~= seq!['.']);
            assert(v@.subrange(hi as int, hi as int) =~= seq![]);
            a = hi;
        } else if a + 1 < hi && v[a] == '.' && v[a + 1] == '/' {
            assert(q.subrange(2, q.len() as int) =~= v@.subrange(a + 2, hi as int));
            a = a + 2;
        } else {
            assert(!(q =~= seq!['.'])) by {
                if q =~= seq!['.'] {
                    assert(q.len() == 1);
                }
            }
            go = false;
        }
    }
    assert(a == hi ==> v@.subrange(a as int, hi as int) =~= seq![]);
    let mut b = hi;
    go = true;
    while go && b > a
        invariant
            lo <= a <= b <= hi <= v@.len(),
            trim_back(v@.subrange(a as int, hi as int)) == trim_back(v@.subrange(a as int, b as int)),
            !go ==> trim_back(v@.subrange(a as int, b as int)) == v@.subrange(a as int, b as int),
        decreases (b - a) * 2 + if go { 1int } else { 0int },
    {
        let ghost q = v@.subrange(a as int, b as int);
        if v[b - 1] == '/' {
            assert(q.drop_last() =~= v@.subrange(a as int, b - 1));
            b = b - 1;
        } else if b == a + 1 && v[a] == '.' {
            assert(q =~= seq!['.']);
            assert(v@.subrange(a as int, a as int) =~= seq![]);
            b = a;
        } else if b - a >= 2 && v[b - 1] == '.' && v[b - 2] == '/' {
            assert(q.subrange(0, q.len() - 2) =~= v@.subrange(a as int, b - 2));
            b = b - 2;
        } else {
            assert(!(q =~= seq!['.'])) by {
                if q =~= seq!['.'] {
                    assert(q.len() == 1);
                }
            }
            go = false;
        }
    }
    assert(a == b ==> v@.subrange(a as int, b as int) =~= seq![]);
    (a, b)
}

/// `p` with its root taken off (see [`without_root`]), or `None` when `p`
/// is relative.
pub fn strip_root(p: &str) -> (r: Option<String>)
    ensures
        match r {
            Some(s) => without_root(p@) == Some(s@),
            None => without_root(p@) is None,
        },
{
    let v = chars_of(p);
    if v.len() > 0 && v[0] == '/' {
        let (a, b) = trim_bounds(&v, 1, v.len());
        assert(v@.subrange(1, v@.len() as int) =~= v@.drop_first());
        Some(string_of(v.as_slice(), a, b))
    } else {
        None
    }
}

/// The path `more` appended to `base`.
pub fn path_join(base: &str, more: &str) -> (p: String)
    ensures
        p@ == joined(base@, more@),
{
    let m = chars_of(more);
    if m.len() > 0 && m[0] == '/' {
        return more.to_owned();
    }
    let b = chars_of(base);
    let mut p = base.to_owned();
    if b.len() > 0 && b[b.len() - 1] != '/' {
        p.push('/');
    }
    let mut i: usize = 0;
    let ghost start = p@;
    while i < m.len()
        invariant
            0 <= i <= m@.len(),
            m@ == more@,
            p@ == start + m@.take(i as int),
        decreases m@.len() - i,
    {
        p.push(m[i]);
        i = i + 1;
        assert(start + m@.take(i as int) =~= (start + m@.take(i - 1)).push(m@[i - 1]));
    }
    assert(m@.take(m@.len() as int) =~= m@);
    assert(b@ == base@);
    assert(base@.len() > 0 && base@.last() != '/' ==> start =~= base@ + seq!['/']);
    assert(joined(base@, more@) =~= start + more@);
    p
}

/// Concatenates two paths even when the right one is absolute: the root of
/// `right` is taken off and what remains is appended to `left`.
///
/// Whenever `left` is not empty (or `right` does not begin with a `.`
/// segment), the result lies under `left`: its components are those of
/// `left` followed by all the segments of `right`.
pub fn join_absolute(left: &str, right: &str) -> (p: String)
    ensures
        p@ == joined(left@, relative_part(right@)),
        left@.len() > 0 || !begins_with_cur_dir(right@) ==> components(p@) == components(left@)
            + body_parts(right@),
        left@.len() > 0 || !begins_with_cur_dir(right@) ==> components(left@).is_prefix_of(
            components(p@),
        ),
{
    let p = match strip_root(right) {
        Some(rest) => path_join(left, rest.as_str()),
        None => path_join(left, right),
    };
    proof {
        if left@.len() > 0 || !begins_with_cur_dir(right@) {
            lemma_join_absolute_parts(left@, right@);
            let c = components(left@);
            assert(c =~= (c + body_parts(right@)).subrange(0, c.len() as int));
        }
    }
    p
}

/// Splitting at a separator: the segments of `a/b` are those of `a`
/// followed by those of `b`.
pub proof fn lemma_segments_split(a: Seq<char>, b: Seq<char>, cur: Seq<char>)
    ensures
        segments_from(a + seq!['/'] + b, cur) == segments_from(a, cur) + segments_from(b, seq![]),
    decreases a.len(),
{
    let s = a + seq!['/'] + b;
    if a.len() == 0 {
        assert(s.drop_first() =~= b);
        assert(s[0] == '/');
    } else {
        assert(s[0] == a[0]);
        assert(s.drop_first() =~= a.drop_first() + seq!['/'] + b);
        lemma_segments_split(a.drop_first(), b, if a[0] == '/' { seq![] } else { cur.push(a[0]) });
        if a[0] == '/' {
            assert(segment_parts(cur) + (segments_from(a.drop_first(), seq![]) + segments_from(
                b,
                seq![],
            )) =~= (segment_parts(cur) + segments_from(a.drop_first(), seq![])) + segments_from(
                b,
                seq![],
            ));
        }
    }
}

/// The lone segment `.` contributes no part.
proof fn lemma_dot_segment()
    ensures
        body_parts(seq!['.']) == Seq::<Part>::empty(),
{
    let s = seq!['.'];
    assert(s[0] == '.');
    assert(s.drop_first() =~= Seq::<char>::empty());
    assert(Seq::<char>::empty().push('.') =~= s);
    assert(segments_from(s, seq![]) == segments_from(Seq::<char>::empty(), s));
    assert(segments_from(Seq::<char>::empty(), s) == segment_parts(s));
    assert(segment_parts(s) =~= Seq::<Part>::empty());
}

/// Taking off leading empty and `.` segments keeps the segments, and what
/// is left neither starts with a separator nor with a `.` segment.
pub proof fn lemma_trim_front(q: Seq<char>)
    ensures
        body_parts(trim_front(q)) == body_parts(q),
        trim_front(q).len() == 0 || trim_front(q)[0] != '/',
        !begins_with_cur_dir(trim_front(q)),
    decreases q.len(),
{
    if q.len() == 0 {
    } else if q[0] == '/' {
        lemma_trim_front(q.drop_first());
        assert(segment_parts(seq![]) =~= seq![]);
        assert(segments_from(q, seq![]) =~= segments_from(q.drop_first(), seq![]));
    } else if q =~= seq!['.'] {
        lemma_dot_segment();
        assert(segment_parts(seq![]) =~= seq![]);
    } else if q.len() >= 2 && q[0] == '.' && q[1] == '/' {
        let rest = q.subrange(2, q.len() as int);
        lemma_trim_front(rest);
        assert(q.drop_first() =~= seq!['/'] + rest);
        assert(seq![].push('.') =~= seq!['.']);
        assert((seq!['/'] + rest).drop_first() =~= rest);
        assert(segments_from(seq!['/'] + rest, seq!['.']) =~= segment_parts(seq!['.'])
            + segments_from(rest, seq![]));
        assert(segment_parts(seq!['.']) =~= seq![]);
        assert(body_parts(q) =~= body_parts(rest));
    } else {
    }
}

/// Taking off trailing empty and `.` segments keeps the segments, and
/// leaves a prefix that is not the single segment `.`.
pub proof fn lemma_trim_back(q: Seq<char>)
    ensures
        body_parts(trim_back(q)) == body_parts(q),
        trim_back(q).is_prefix_of(q),
        !(trim_back(q) =~= seq!['.']),
    decreases q.len(),
{
    if q.len() == 0 {
    } else if q.last() == '/' {
        let r = q.drop_last();
        lemma_trim_back(r);
        assert(q =~= r + seq!['/'] + seq![]);
        lemma_segments_split(r, seq![], seq![]);
        assert(segments_from(seq![], seq![]) =~= seq![]);
        assert(body_parts(r) + seq![] =~= body_parts(r));
        assert(trim_back(r) =~= q.subrange(0, trim_back(r).len() as int));
    } else if q =~= seq!['.'] {
        lemma_dot_segment();
        assert(segment_parts(seq![]) =~= seq![]);
    } else if q.len() >= 2 && q.last() == '.' && q[q.len() - 2] == '/' {
        let r = q.subrange(0, q.len() - 2);
        lemma_trim_back(r);
        assert(q =~= r + seq!['/'] + seq!['.']);
        lemma_segments_split(r, seq!['.'], seq![]);
        lemma_dot_segment();
        assert(body_parts(r) + seq![] =~= body_parts(r));
        assert(trim_back(r) =~= q.subrange(0, trim_back(r).len() as int));
    } else {
        assert(q =~= q.subrange(0, q.len() as int));
    }
}

/// The components of a path joined onto a non-empty base are those of the
/// base followed by the segments of the relative part.
pub proof fn lemma_join_parts(l: Seq<char>, m: Seq<char>)
    requires
        l.len() > 0,
        m.len() == 0 || m[0] != '/',
    ensures
        components(joined(l, m)) == components(l) + body_parts(m),
{
    let j = joined(l, m);
    if l.last() != '/' {
        lemma_segments_split(l, m, seq![]);
        assert(j =~= l + seq!['/'] + m);
        assert(j[0] == l[0]);
        assert(j.len() >= 2);
        assert(l.len() >= 2 ==> j[1] == l[1]);
        assert(l.len() == 1 ==> j[1] == '/');
        assert(leading_parts(j) == leading_parts(l));
    } else {
        let l0 = l.drop_last();
        assert(l =~= l0 + seq!['/'] + seq![]);
        assert(j =~= l0 + seq!['/'] + m);
        lemma_segments_split(l0, m, seq![]);
        lemma_segments_split(l0, seq![], seq![]);
        assert(segments_from(seq![], seq![]) =~= seq![]);
        assert(body_parts(l) =~= body_parts(l0));
        assert(j =~= l + m);
        assert(j[0] == l[0]);
        assert(l.len() >= 2 ==> j[1] == l[1]);
        assert(leading_parts(j) == leading_parts(l));
    }
    assert(components(j) =~= components(l) + body_parts(m));
}

/// The law of [`join_absolute`]: the result lies under `left`, followed
/// by every segment of `right`, whether `right` is absolute or relative.
/// It fails only for an empty `left` with a `right` that begins with a `.`
/// segment (`./x` joined onto nothing keeps its `.`).
pub proof fn lemma_join_absolute_parts(left: Seq<char>, right: Seq<char>)
    requires
        left.len() > 0 || !begins_with_cur_dir(right),
    ensures
        components(joined(left, relative_part(right))) == components(left) + body_parts(right),
{
    let m = relative_part(right);
    if right.len() > 0 && right[0] == '/' {
        let q = right.drop_first();
        lemma_trim_front(q);
        lemma_trim_back(trim_front(q));
        let t = trim_front(q);
        let u = trim_back(t);
        assert(m == u);
        assert(u.len() > 0 ==> u[0] == t[0]);
        assert(u.len() >= 2 ==> u[1] == t[1]);
        assert(right =~= seq![] + seq!['/'] + q);
        lemma_segments_split(seq![], q, seq![]);
        assert(segments_from(seq![], seq![]) =~= seq![]);
        assert(body_parts(right) =~= body_parts(q));
        assert(body_parts(m) == body_parts(right));
        assert(m.len() == 0 || m[0] != '/');
        if left.len() > 0 {
            lemma_join_parts(left, m);
        } else {
            assert(joined(left, m) =~= m);
            assert(!begins_with_cur_dir(m));
            assert(leading_parts(m) =~= seq![]);
            assert(components(left) =~= seq![]);
            assert(components(m) =~= components(left) + body_parts(right));
        }
    } else {
        assert(m == right);
        if left.len() > 0 {
            lemma_join_parts(left, m);
        } else {
            assert(joined(left, m) =~= m);
            assert(leading_parts(m) =~= seq![]);
            assert(components(left) =~= seq![]);
            assert(components(m) =~= components(left) + body_parts(right));
        }
    }
}

/// The text after the first `m` components of a path body `p` that are not
/// empty or `.`, each taken with the separator after it; `seg` is the text
/// of the segment read so far, just before `p`.
pub open spec fn skip_from(p: Seq<char>, seg: Seq<char>, m: nat) -> Seq<char>
    decreases p.len(),
{
    if m == 0 {
        seg + p
    } else if p.len() == 0 {
        seq![]
    } else if p[0] == '/' {
        if segment_parts(seg).len() > 0 {
            skip_from(p.drop_first(), seq![], (m - 1) as nat)
        } else {
            skip_from(p.drop_first(), seq![], m)
        }
    } else {
        skip_from(p.drop_first(), seg.push(p[0]), m)
    }
}

/// `p` without its trailing empty and `.` segments, never shortened to
/// fewer than `lo` characters.
pub open spec fn trim_back_from(p: Seq<char>, lo: nat) -> Seq<char>
    decreases p.len(),
{
    if p.len() <= lo {
        p
    } else if p.last() == '/' {
        trim_back_from(p.drop_last(), lo)
    } else if p.len() == lo + 1 && p.last() == '.' {
        p.drop_last()
    } else if p.len() >= lo + 2 && p.last() == '.' && p[p.len() - 2] == '/' {
        trim_back_from(p.subrange(0, p.len() - 2), lo)
    } else {
        p
    }
}

/// What is left of the path `p` once the components of `base` are taken
/// off its front (meaningful when they are its first components): with no
/// components to take off, `p` without trailing empty and `.` segments;
/// otherwise the text after them without leading and trailing ones.
pub open spec fn stripped(p: Seq<char>, base: Seq<char>) -> Seq<char> {
    let k = components(base).len();
    let lead = leading_parts(p).len();
    if k == 0 {
        trim_back_from(p, lead)
    } else {
        trim_back(trim_front(skip_from(p.subrange(lead as int, p.len() as int), seq![], (k - lead) as nat)))
    }
}

/// The index in `v` after the first `m0` components of `v[start..]` that
/// are not empty or `.`, with the separator after the last of them.
fn skip_bounds(v: &Vec<char>, start: usize, m0: usize) -> (a: usize)
    requires
        start <= v@.len(),
    ensures
        start <= a <= v@.len(),
        v@.subrange(a as int, v@.len() as int) == skip_from(
            v@.subrange(start as int, v@.len() as int),
            seq![],
            m0 as nat,
        ),
{
    let n = v.len();
    if m0 == 0 {
        assert(Seq::<char>::empty() + v@.subrange(start as int, n as int) =~= v@.subrange(
            start as int,
            n as int,
        ));
        return start;
    }
    let mut m = m0;
    let mut seg_start = start;
    let mut idx = start;
    assert(v@.subrange(start as int, start as int) =~= seq![]);
    while idx < n
        invariant
            start <= seg_start <= idx <= n,
            n == v@.len(),
            m > 0,
            skip_from(v@.subrange(start as int, n as int), seq![], m0 as nat) == skip_from(
                v@.subrange(idx as int, n as int),
                v@.subrange(seg_start as int, idx as int),
                m as nat,
            ),
        decreases n - idx,
    {
        let ghost q = v@.subrange(idx as int, n as int);
        let ghost seg = v@.subrange(seg_start as int, idx as int);
        assert(q[0] == v@[idx as int]);
        assert(q.drop_first() =~= v@.subrange(idx + 1, n as int));
        if v[idx] == '/' {
            let nonempty = idx > seg_start && !(idx == seg_start + 1 && v[seg_start] == '.');
            assert(nonempty == (segment_parts(seg).len() > 0)) by {
                if seg.len() == 1 {
                    assert(seg[0] == v@[seg_start as int]);
                    if seg[0] == '.' {
                        assert(seg =~= seq!['.']);
                    } else {
                        assert(!(seg =~= seq!['.']));
                        assert(!(seg =~= seq!['.', '.']));
                    }
                } else if seg.len() >= 2 {
                    assert(!(seg =~= seq!['.']));
                }
            }
            if nonempty {
                if m == 1 {
                    let ghost rest = v@.subrange(idx + 1, n as int);
                    assert(skip_from(q, seg, 1) == skip_from(q.drop_first(), seq![], 0));
                    assert(skip_from(rest, seq![], 0) == Seq::<char>::empty() + rest);
                    assert(Seq::<char>::empty() + rest =~= rest);
                    return idx + 1;
                }
                m = m - 1;
            }
            seg_start = idx + 1;
            assert(v@.subrange(seg_start as int, idx + 1) =~= seq![]);
        } else {
            assert(seg.push(v@[idx as int]) =~= v@.subrange(seg_start as int, idx + 1));
        }
        idx = idx + 1;
    }
    assert(v@.subrange(n as int, n as int) =~= seq![]);
    n
}

/// The bound in `v` below `hi` once trailing empty and `.` segments are
/// taken off `v[..hi]`, never below `lo`.
fn trim_back_bound(v: &Vec<char>, lo: usize, hi: usize) -> (b: usize)
    requires
        lo <= hi <= v@.len(),
    ensures
        b <= hi,
        v@.subrange(0, b as int) == trim_back_from(v@.subrange(0, hi as int), lo as nat),
{
    let mut b = hi;
    let mut go = true;
    while go && b > lo
        invariant
            lo <= b <= hi <= v@.len(),
            trim_back_from(v@.subrange(0, hi as int), lo as nat) == trim_back_from(
                v@.subrange(0, b as int),
                lo as nat,
            ),
            !go ==> trim_back_from(v@.subrange(0, b as int), lo as nat) == v@.subrange(0, b as int),
        decreases (b - lo) * 2 + if go { 1int } else { 0int },
    {
        let ghost q = v@.subrange(0, b as int);
        if v[b - 1] == '/' {
            assert(q.drop_last() =~= v@.subrange(0, b - 1));
            b = b - 1;
        } else if b == lo + 1 && v[b - 1] == '.' {
            assert(q.drop_last() =~= v@.subrange(0, b - 1));
            b = b - 1;
            go = false;
        } else if b - lo >= 2 && v[b - 1] == '.' && v[b - 2] == '/' {
            assert(q.subrange(0, q.len() - 2) =~= v@.subrange(0, b - 2));
            b = b - 2;
        } else {
            go = false;
        }
    }
    b
}

/// What is left of `path` once the components of `base` are taken off its
/// front; `None` when they are not its first components.
pub fn strip_path_prefix(path: &str, base: &str) -> (r: Option<String>)
    ensures
        match r {
            Some(s) => components(base@).is_prefix_of(components(path@)) && s@ == stripped(
                path@,
                base@,
            ) && components(base@) + components(s@) == components(path@),
            None => !components(base@).is_prefix_of(components(path@)),
        },
{
    let v = chars_of(path);
    let pc = components_of(&v);
    let bc = components_of(&chars_of(base));
    if !parts_prefix(&bc, &pc) {
        return None;
    }
    let n = v.len();
    let lead: usize = if n > 0 && v[0] == '/' {
        1
    } else if n > 0 && v[0] == '.' && (n == 1 || v[1] == '/') {
        1
    } else {
        0
    };
    assert(lead == leading_parts(v@).len());
    let k = bc.len();
    assert(k == components(base@).len());
    if k == 0 {
        let b = trim_back_bound(&v, lead, n);
        assert(v@.subrange(0, n as int) =~= v@);
        let rest = string_of(v.as_slice(), 0, b);
        proof {
            lemma_strip_components(path@, base@);
        }
        return Some(rest);
    }
    if lead > k {
        // The first component of `path` is its root or `.`, and `base`
        // matches it, so `base` has at least one component.
        assert(false);
        return None;
    }
    let a = skip_bounds(&v, lead, k - lead);
    let (x, y) = trim_bounds(&v, a, n);
    let rest = string_of(v.as_slice(), x, y);
    proof {
        lemma_strip_components(path@, base@);
    }
    Some(rest)
}

/// Where an entry of a directory tree goes when the tree at `source` is
/// copied to `dest`: `dest` joined with the entry's path below `source`;
/// `None` when the entry does not lie under `source`.
///
/// Whenever `source` has a component, the entry's place has exactly the
/// components of `dest` followed by those of the entry below `source`.
pub fn entry_destination(dest: &str, source: &str, entry: &str) -> (r: Option<String>)
    ensures
        match r {
            Some(d) => components(source@).is_prefix_of(components(entry@)) && d@ == joined(
                dest@,
                stripped(entry@, source@),
            ) && (components(source@).len() > 0 ==> components(d@) == components(dest@)
                + components(entry@).subrange(
                components(source@).len() as int,
                components(entry@).len() as int,
            )),
            None => !components(source@).is_prefix_of(components(entry@)),
        },
{
    match strip_path_prefix(entry, source) {
        Some(rest) => {
            let d = path_join(dest, rest.as_str());
            proof {
                if components(source@).len() > 0 {
                    lemma_entry_destination(dest@, source@, entry@);
                }
            }
            Some(d)
        },
        None => None,
    }
}

/// The law of copying a tree: an entry below `source` goes to `dest`
/// followed by exactly the components of the entry below `source`.
pub proof fn lemma_entry_destination(dest: Seq<char>, source: Seq<char>, entry: Seq<char>)
    requires
        components(source).is_prefix_of(components(entry)),
        components(source).len() > 0,
    ensures
        components(joined(dest, stripped(entry, source))) == components(dest) + components(
            entry,
        ).subrange(components(source).len() as int, components(entry).len() as int),
{
    lemma_strip_components(entry, source);
    let s = stripped(entry, source);
    assert(s.len() == 0 || s[0] != '/');
    assert(!begins_with_cur_dir(s));
    assert(components(s) =~= body_parts(s));
    if dest.len() > 0 {
        lemma_join_parts(dest, s);
    } else {
        assert(joined(dest, s) =~= s);
        assert(components(dest) =~= Seq::<Part>::empty());
        assert(components(dest) + components(s) =~= components(s));
    }
}

/// Whether `p` holds no separator.
pub open spec fn slash_free(p: Seq<char>) -> bool {
    forall|i: int| 0 <= i < p.len() ==> p[i] != '/'
}

/// Text without a separator only lengthens the segment being read.
proof fn lemma_segments_carry(a: Seq<char>, p: Seq<char>, cur: Seq<char>)
    requires
        slash_free(a),
    ensures
        segments_from(a + p, cur) == segments_from(p, cur + a),
    decreases a.len(),
{
    if a.len() == 0 {
        assert(a + p =~= p);
        assert(cur + a =~= cur);
    } else {
        let s = a + p;
        assert(s[0] == a[0]);
        assert(a[0] != '/');
        assert(s.drop_first() =~= a.drop_first() + p);
        assert(slash_free(a.drop_first()));
        lemma_segments_carry(a.drop_first(), p, cur.push(a[0]));
        assert(cur.push(a[0]) + a.drop_first() =~= cur + a);
    }
}

/// Skipping `m` components of a body leaves exactly the components after
/// the first `m`.
proof fn lemma_skip_parts(p: Seq<char>, seg: Seq<char>, m: nat)
    requires
        slash_free(seg),
        segments_from(p, seg).len() >= m,
    ensures
        segments_from(skip_from(p, seg, m), seq![]) == segments_from(p, seg).subrange(
            m as int,
            segments_from(p, seg).len() as int,
        ),
    decreases p.len(),
{
    let all = segments_from(p, seg);
    if m == 0 {
        lemma_segments_carry(seg, p, seq![]);
        assert(Seq::<char>::empty() + seg =~= seg);
        assert(all.subrange(0, all.len() as int) =~= all);
    } else if p.len() == 0 {
        assert(skip_from(p, seg, m) =~= seq![]);
        assert(segments_from(seq![], seq![]) == segment_parts(seq![]));
        assert(segment_parts(seq![]) =~= Seq::<Part>::empty());
        assert(all == segment_parts(seg));
        assert(all.subrange(m as int, all.len() as int) =~= Seq::<Part>::empty());
    } else if p[0] == '/' {
        let rest = segments_from(p.drop_first(), seq![]);
        assert(all == segment_parts(seg) + rest);
        assert(slash_free(Seq::<char>::empty()));
        if segment_parts(seg).len() > 0 {
            assert(segment_parts(seg).len() == 1);
            lemma_skip_parts(p.drop_first(), seq![], (m - 1) as nat);
            assert(all.subrange(m as int, all.len() as int) =~= rest.subrange(
                m - 1,
                rest.len() as int,
            ));
        } else {
            lemma_skip_parts(p.drop_first(), seq![], m);
            assert(all =~= rest);
        }
    } else {
        assert(slash_free(seg.push(p[0])));
        lemma_skip_parts(p.drop_first(), seg.push(p[0]), m);
    }
}

/// The segments of a path are those of its text after the root or the
/// leading `.`.
proof fn lemma_body_after_lead(p: Seq<char>)
    ensures
        body_parts(p) == body_parts(p.subrange(
            leading_parts(p).len() as int,
            p.len() as int,
        )),
{
    let lead = leading_parts(p).len();
    if lead == 0 {
        assert(p.subrange(0, p.len() as int) =~= p);
    } else if p[0] == '/' {
        assert(p =~= Seq::<char>::empty() + seq!['/'] + p.drop_first());
        lemma_segments_split(seq![], p.drop_first(), seq![]);
        assert(segments_from(seq![], seq![]) =~= Seq::<Part>::empty());
        assert(p.subrange(1, p.len() as int) =~= p.drop_first());
        assert(body_parts(p) =~= body_parts(p.drop_first()));
    } else if p.len() == 1 {
        assert(p =~= seq!['.']);
        lemma_dot_segment();
        assert(p.subrange(1, 1) =~= Seq::<char>::empty());
        assert(segments_from(seq![], seq![]) =~= Seq::<Part>::empty());
    } else {
        let tail = p.subrange(2, p.len() as int);
        assert(p =~= seq!['.'] + seq!['/'] + tail);
        lemma_segments_split(seq!['.'], tail, seq![]);
        lemma_dot_segment();
        let rest = p.subrange(1, p.len() as int);
        assert(rest =~= Seq::<char>::empty() + seq!['/'] + tail);
        lemma_segments_split(seq![], tail, seq![]);
        assert(segments_from(seq![], seq![]) =~= Seq::<Part>::empty());
        assert(body_parts(p) =~= body_parts(tail));
        assert(body_parts(rest) =~= body_parts(tail));
    }
}

/// Taking off trailing empty and `.` segments above the root or leading
/// `.` keeps the segments and the start of the path, and never leaves the
/// single segment `.` in place of a path without such a start.
proof fn lemma_trim_back_from(p: Seq<char>, lo: nat)
    requires
        lo == leading_parts(p).len(),
    ensures
        body_parts(trim_back_from(p, lo)) == body_parts(p),
        trim_back_from(p, lo).is_prefix_of(p),
        trim_back_from(p, lo).len() >= lo,
        leading_parts(trim_back_from(p, lo)) == leading_parts(p),
    decreases p.len(),
{
    let r0 = trim_back_from(p, lo);
    if p.len() <= lo {
        assert(p =~= p.subrange(0, p.len() as int));
    } else if p.last() == '/' {
        let r = p.drop_last();
        assert(r.len() >= lo);
        assert(lo == 1 ==> r[0] == p[0]);
        assert(lo == 1 && r.len() >= 2 ==> r[1] == p[1]);
        assert(lo == 0 && r.len() >= 2 ==> r[1] == p[1]);
        assert(r.len() >= 1 ==> r[0] == p[0]);
        assert(leading_parts(r) == leading_parts(p));
        lemma_trim_back_from(r, lo);
        assert(p =~= r + seq!['/'] + seq![]);
        lemma_segments_split(r, seq![], seq![]);
        assert(segments_from(seq![], seq![]) =~= Seq::<Part>::empty());
        assert(body_parts(r) + seq![] =~= body_parts(r));
        assert(trim_back_from(r, lo) =~= p.subrange(0, trim_back_from(r, lo).len() as int));
    } else if p.len() == lo + 1 && p.last() == '.' {
        let r = p.drop_last();
        if lo == 0 {
            assert(p =~= seq!['.']);
            lemma_dot_segment();
            assert(segments_from(seq![], seq![]) =~= Seq::<Part>::empty());
        } else {
            assert(p[0] == '/');
            assert(p =~= Seq::<char>::empty() + seq!['/'] + seq!['.']);
            assert(r =~= Seq::<char>::empty() + seq!['/'] + Seq::<char>::empty());
            lemma_segments_split(seq![], seq!['.'], seq![]);
            lemma_segments_split(seq![], seq![], seq![]);
            lemma_dot_segment();
            assert(segments_from(seq![], seq![]) =~= Seq::<Part>::empty());
        }
        assert(r =~= p.subrange(0, r.len() as int));
    } else if p.len() >= lo + 2 && p.last() == '.' && p[p.len() - 2] == '/' {
        let r = p.subrange(0, p.len() - 2);
        assert(r.len() >= lo);
        assert(r.len() >= 1 ==> r[0] == p[0]);
        assert(r.len() >= 2 ==> r[1] == p[1]);
        assert(lo == 0 && p[0] == '.' ==> p[1] != '/');
        assert(lo == 0 && r.len() == 1 ==> r[0] != '.' || p[1] != '/');
        assert(leading_parts(r) == leading_parts(p));
        lemma_trim_back_from(r, lo);
        assert(p =~= r + seq!['/'] + seq!['.']);
        lemma_segments_split(r, seq!['.'], seq![]);
        lemma_dot_segment();
        assert(body_parts(r) + seq![] =~= body_parts(r));
        assert(trim_back_from(r, lo) =~= p.subrange(0, trim_back_from(r, lo).len() as int));
    } else {
        assert(p =~= p.subrange(0, p.len() as int));
    }
}

/// What stripping a prefix means: when the components of `base` are the
/// first components of `path`, what is left has exactly the components of
/// `path` after them.
pub proof fn lemma_strip_components(path: Seq<char>, base: Seq<char>)
    requires
        components(base).is_prefix_of(components(path)),
    ensures
        components(stripped(path, base)) == components(path).subrange(
            components(base).len() as int,
            components(path).len() as int,
        ),
        components(base) + components(stripped(path, base)) == components(path),
        components(base).len() > 0 ==> leading_parts(stripped(path, base)) == Seq::<Part>::empty(),
{
    let k = components(base).len();
    let lead = leading_parts(path).len();
    let all = components(path);
    if k == 0 {
        lemma_trim_back_from(path, lead);
        assert(all.subrange(0, all.len() as int) =~= all);
    } else {
        let rest = path.subrange(lead as int, path.len() as int);
        lemma_body_after_lead(path);
        let m = (k - lead) as nat;
        assert(all == leading_parts(path) + body_parts(rest));
        assert(lead <= k) by {
            if lead == 1 {
                assert(components(base)[0] == all[0]);
            }
        }
        assert(body_parts(rest).len() >= m);
        assert(slash_free(Seq::<char>::empty()));
        lemma_skip_parts(rest, seq![], m);
        let sk = skip_from(rest, seq![], m);
        lemma_trim_front(sk);
        let t = trim_front(sk);
        lemma_trim_back(t);
        let u = trim_back(t);
        assert(u == stripped(path, base));
        assert(u.len() > 0 ==> u[0] == t[0]);
        assert(u.len() >= 2 ==> u[1] == t[1]);
        assert(leading_parts(u) =~= Seq::<Part>::empty());
        assert(components(u) =~= body_parts(u));
        assert(body_parts(rest).subrange(m as int, body_parts(rest).len() as int)
            =~= all.subrange(k as int, all.len() as int));
    }
    assert(components(base) =~= all.subrange(0, k as int));
    assert(components(base) + all.subrange(k as int, all.len() as int) =~= all);
}

} // verus!
