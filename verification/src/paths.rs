//! Paths as strings with `/` separators: their components, file names and
//! prefixes, as `std::path::Path` reads them on Unix.
use vstd::prelude::*;
use crate::text::{is_last, last_index, find_last, same_chars, slice_chars, push_all};

verus! {

/// The fold behind `segments`: the segments closed so far and the open one.
pub open spec fn seg_fold(p: Seq<char>) -> (Seq<Seq<char>>, Seq<char>)
    decreases p.len(),
{
    if p.len() == 0 {
        (Seq::empty(), Seq::empty())
    } else {
        let (done, cur) = seg_fold(p.drop_last());
        if p.last() == '/' {
            (done.push(cur), Seq::empty())
        } else {
            (done, cur.push(p.last()))
        }
    }
}

/// `p` split at every `/`.
pub open spec fn segments(p: Seq<char>) -> Seq<Seq<char>> {
    seg_fold(p).0.push(seg_fold(p).1)
}

/// A segment that names something: neither empty nor `.`.
pub open spec fn is_normal(seg: Seq<char>) -> bool {
    seg.len() > 0 && seg != seq!['.']
}

/// The segments that name something, in order.
pub open spec fn normals(segs: Seq<Seq<char>>) -> Seq<Seq<char>>
    decreases segs.len(),
{
    if segs.len() == 0 {
        Seq::empty()
    } else {
        let before = normals(segs.drop_last());
        if is_normal(segs.last()) {
            before.push(segs.last())
        } else {
            before
        }
    }
}

/// The components of a path: the root (`/`) or a leading `.`, then the
/// segments that name something.
pub open spec fn components(p: Seq<char>) -> Seq<Seq<char>> {
    let lead: Seq<Seq<char>> = if p.len() > 0 && p[0] == '/' {
        seq![seq!['/']]
    } else if p.len() > 0 && p[0] == '.' && (p.len() == 1 || p[1] == '/') {
        seq![seq!['.']]
    } else {
        Seq::empty()
    };
    lead + normals(segments(p))
}

/// `Path::file_name`: the last component, when it names a file or folder.
pub open spec fn file_name(p: Seq<char>) -> Option<Seq<char>> {
    let n = normals(segments(p));
    if n.len() == 0 || n.last() == seq!['.', '.'] {
        None
    } else {
        Some(n.last())
    }
}

/// `Path::file_stem` of a file name: the part before the last `.`, unless
/// the only `.` starts the name.
pub open spec fn stem_of(name: Seq<char>) -> Seq<char> {
    match last_index(name, '.') {
        Some(i) => if i > 0 {
            name.take(i)
        } else {
            name
        },
        None => name,
    }
}

/// `Path::starts_with`: whether the components of `base` begin those of `p`.
pub open spec fn path_starts_with(p: Seq<char>, base: Seq<char>) -> bool {
    let a = components(p);
    let b = components(base);
    b.len() <= a.len() && a.take(b.len() as int) == b
}

pub open spec fn views(v: Seq<Vec<char>>) -> Seq<Seq<char>> {
    Seq::new(v.len(), |i: int| v[i]@)
}

proof fn lemma_normals_push(segs: Seq<Seq<char>>, s: Seq<char>)
    ensures
        normals(segs.push(s)) == if is_normal(s) {
            normals(segs).push(s)
        } else {
            normals(segs)
        },
{
    assert(segs.push(s).drop_last() == segs);
}

fn is_normal_exec(seg: &Vec<char>) -> (r: bool)
    ensures
        r == is_normal(seg@),
{
    let r = seg.len() > 0 && !(seg.len() == 1 && seg[0] == '.');
    proof {
        if seg@.len() == 1 && seg@[0] == '.' {
            assert(seg@ =~= seq!['.']);
        }
    }
    r
}

/// The segments of `p` that name something.
pub fn normal_segments(p: &[char]) -> (r: Vec<Vec<char>>)
    ensures
        views(r@) == normals(segments(p@)),
{
    let mut done: Vec<Vec<char>> = Vec::new();
    let mut cur: Vec<char> = Vec::new();
    for i in 0..p.len()
        invariant
            views(done@) == normals(seg_fold(p@.take(i as int)).0),
            cur@ == seg_fold(p@.take(i as int)).1,
    {
        assert(p@.take(i + 1).drop_last() == p@.take(i as int));
        let c = p[i];
        if c == '/' {
            proof {
                lemma_normals_push(seg_fold(p@.take(i as int)).0, cur@);
            }
            if is_normal_exec(&cur) {
                let ghost before = done@;
                done.push(cur);
                assert(views(done@) =~= views(before).push(cur@));
            }
            cur = Vec::new();
        } else {
            cur.push(c);
        }
    }
    assert(p@.take(p@.len() as int) == p@);
    proof {
        lemma_normals_push(seg_fold(p@).0, cur@);
    }
    if is_normal_exec(&cur) {
        let ghost before = done@;
        done.push(cur);
        assert(views(done@) =~= views(before).push(cur@));
    }
    done
}

/// The components of `p`.
pub fn path_components(p: &[char]) -> (r: Vec<Vec<char>>)
    ensures
        views(r@) == components(p@),
{
    let mut r: Vec<Vec<char>> = Vec::new();
    if p.len() > 0 && p[0] == '/' {
        let mut root: Vec<char> = Vec::new();
        root.push('/');
        r.push(root);
    } else if p.len() > 0 && p[0] == '.' && (p.len() == 1 || p[1] == '/') {
        let mut here: Vec<char> = Vec::new();
        here.push('.');
        r.push(here);
    }
    let ghost lead = views(r@);
    proof {
        if p@.len() > 0 && p@[0] == '/' {
            assert(lead =~= seq![seq!['/']]);
        } else if p@.len() > 0 && p@[0] == '.' && (p@.len() == 1 || p@[1] == '/') {
            assert(lead =~= seq![seq!['.']]);
        } else {
            assert(lead =~= Seq::<Seq<char>>::empty());
        }
    }
    let rest = normal_segments(p);
    for i in 0..rest.len()
        invariant
            views(r@) == lead + views(rest@).take(i as int),
    {
        let ghost before = r@;
        let seg = slice_chars(&rest[i], 0, rest[i].len());
        assert(seg@ =~= rest@[i as int]@);
        r.push(seg);
        assert(views(r@) =~= views(before).push(seg@));
        assert(views(rest@)[i as int] == rest@[i as int]@);
        assert(views(rest@).take(i + 1) =~= views(rest@).take(i as int).push(views(rest@)[i as int]));
        assert(views(r@) =~= lead + views(rest@).take(i + 1));
    }
    assert(views(rest@).take(rest@.len() as int) == views(rest@));
    r
}

/// `Path::file_name` of `p`.
pub fn path_file_name(p: &[char]) -> (r: Option<Vec<char>>)
    ensures
        match r {
            Some(n) => file_name(p@) == Some(n@),
            None => file_name(p@) is None,
        },
{
    let segs = normal_segments(p);
    if segs.len() == 0 {
        return None;
    }
    let last = &segs[segs.len() - 1];
    assert(views(segs@).last() == last@);
    if last.len() == 2 && last[0] == '.' && last[1] == '.' {
        assert(last@ =~= seq!['.', '.']);
        return None;
    }
    Some(slice_chars(last, 0, last.len()))
}

/// The stem of a file name.
pub fn file_stem(name: &[char]) -> (r: Vec<char>)
    ensures
        r@ == stem_of(name@),
{
    match find_last(name, '.') {
        Some(i) => if i > 0 {
            slice_chars(name, 0, i)
        } else {
            slice_chars(name, 0, name.len())
        },
        None => slice_chars(name, 0, name.len()),
    }
}

/// Whether `p` begins with the components of `base`.
pub fn starts_with_path(p: &[char], base: &[char]) -> (r: bool)
    ensures
        r == path_starts_with(p@, base@),
{
    let a = path_components(p);
    let b = path_components(base);
    if b.len() > a.len() {
        return false;
    }
    for i in 0..b.len()
        invariant
            b@.len() <= a@.len(),
            views(a@) == components(p@),
            views(b@) == components(base@),
            forall|j: int| 0 <= j < i ==> views(a@)[j] == views(b@)[j],
    {
        if !same_chars(&a[i], &b[i]) {
            assert(views(a@)[i as int] == a@[i as int]@);
            assert(views(b@)[i as int] == b@[i as int]@);
            assert(views(a@).take(b@.len() as int)[i as int] != views(b@)[i as int]);
            assert(views(a@).take(b@.len() as int) != views(b@));
            return false;
        }
    }
    assert(views(a@).take(b@.len() as int) =~= views(b@));
    true
}

/// Whether two paths are equal as `std::path::Path` compares them: by their
/// components, so that repeated separators, a trailing separator and inner
/// `.` segments make no difference.
pub open spec fn same_path(a: Seq<char>, b: Seq<char>) -> bool {
    components(a) == components(b)
}

/// Whether `a` and `b` are the same path (see `same_path`).
pub fn paths_equal(a: &[char], b: &[char]) -> (r: bool)
    ensures
        r == same_path(a@, b@),
{
    let x = path_components(a);
    let y = path_components(b);
    if x.len() != y.len() {
        assert(views(x@).len() != views(y@).len());
        return false;
    }
    for i in 0..x.len()
        invariant
            x@.len() == y@.len(),
            views(x@) == components(a@),
            views(y@) == components(b@),
            forall|j: int| 0 <= j < i ==> views(x@)[j] == views(y@)[j],
    {
        if !same_chars(&x[i], &y[i]) {
            assert(views(x@)[i as int] == x@[i as int]@);
            assert(views(y@)[i as int] == y@[i as int]@);
            return false;
        }
    }
    assert(views(x@) =~= views(y@));
    true
}

/// `PathBuf::join` of a relative name onto a folder.
pub open spec fn join_spec(folder: Seq<char>, name: Seq<char>) -> Seq<char> {
    if name.len() > 0 && name[0] == '/' {
        name
    } else if folder.len() == 0 {
        name
    } else if folder.last() == '/' {
        folder + name
    } else {
        folder + seq!['/'] + name
    }
}

pub fn join(folder: &[char], name: &[char]) -> (r: Vec<char>)
    ensures
        r@ == join_spec(folder@, name@),
{
    let mut out: Vec<char> = Vec::new();
    if name.len() > 0 && name[0] == '/' {
        push_all(&mut out, name);
        assert(out@ =~= name@);
        return out;
    }
    push_all(&mut out, folder);
    if folder.len() > 0 && folder[folder.len() - 1] != '/' {
        out.push('/');
    }
    push_all(&mut out, name);
    assert(out@ =~= join_spec(folder@, name@));
    out
}

} // verus!
