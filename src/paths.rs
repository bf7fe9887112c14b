use vstd::prelude::*;
use vstd::utf8::encode_utf8;

verus! {

/// A path as Verus sees it: the characters of each component.
pub type PathView = Seq<Seq<char>>;

/// `prefix` is `path` itself or one of its ancestors.
pub open spec fn is_prefix(prefix: PathView, path: PathView) -> bool {
    prefix.len() <= path.len() && path.take(prefix.len() as int) == prefix
}

/// `path` lies strictly below the directory `dir`.
pub open spec fn is_under(dir: PathView, path: PathView) -> bool {
    dir.len() < path.len() && path.take(dir.len() as int) == dir
}

/// The part of `path` below `root`.
pub open spec fn relative_to(root: PathView, path: PathView) -> PathView {
    path.skip(root.len() as int)
}

/// A file name with the `py` extension: something before a final `.py`.
pub open spec fn is_source_name(b: Seq<u8>) -> bool {
    b.len() > 3 && b[b.len() - 3] == 46u8 && b[b.len() - 2] == 112u8 && b[b.len() - 1] == 121u8
}

pub open spec fn is_source_path(path: PathView) -> bool {
    path.len() > 0 && is_source_name(encode_utf8(path.last()))
}

/// Byte-wise lexicographic comparison: negative, zero or positive.
pub open spec fn bytes_cmp(a: Seq<u8>, b: Seq<u8>) -> int
    decreases a.len(),
{
    if a.len() == 0 {
        if b.len() == 0 { 0 } else { -1 }
    } else if b.len() == 0 {
        1
    } else if a[0] < b[0] {
        -1
    } else if a[0] > b[0] {
        1
    } else {
        bytes_cmp(a.drop_first(), b.drop_first())
    }
}

pub proof fn lemma_bytes_cmp(a: Seq<u8>, b: Seq<u8>, c: Seq<u8>)
    ensures
        bytes_cmp(a, b) == -bytes_cmp(b, a),
        -1 <= bytes_cmp(a, b) <= 1,
        bytes_cmp(a, b) == 0 ==> a == b,
        bytes_cmp(a, b) <= 0 && bytes_cmp(b, c) <= 0 ==> bytes_cmp(a, c) <= 0,
    decreases a.len(),
{
    if a.len() > 0 && b.len() > 0 && c.len() > 0 {
        lemma_bytes_cmp(a.drop_first(), b.drop_first(), c.drop_first());
    } else if a.len() > 0 && b.len() > 0 {
        lemma_bytes_cmp(a.drop_first(), b.drop_first(), c);
    }
    if a.len() > 0 && b.len() > 0 && bytes_cmp(a, b) == 0 {
        assert(a == seq![a[0]] + a.drop_first());
        assert(b == seq![b[0]] + b.drop_first());
    }
    if a.len() == 0 && b.len() == 0 {
        assert(a == b);
    }
}

/// Texts whose UTF-8 encodings compare equal are equal.
pub proof fn lemma_equal_bytes_equal_text(x: Seq<char>, y: Seq<char>)
    requires
        bytes_cmp(encode_utf8(x), encode_utf8(y)) == 0,
    ensures
        x == y,
{
    lemma_bytes_cmp(encode_utf8(x), encode_utf8(y), encode_utf8(y));
    vstd::utf8::encode_utf8_decode_utf8(x);
    vstd::utf8::encode_utf8_decode_utf8(y);
}

/// Whether `prefix` is `path` itself or one of its ancestors.
pub fn starts_with(path: &Vec<String>, prefix: &Vec<String>) -> (r: bool)
    ensures
        r == is_prefix(prefix.deep_view(), path.deep_view()),
{
    if prefix.len() > path.len() {
        return false;
    }
    let mut i: usize = 0;
    while i < prefix.len()
        invariant
            prefix.len() <= path.len(),
            i <= prefix.len(),
            forall|k: int| 0 <= k < i ==> path.deep_view()[k] == prefix.deep_view()[k],
        decreases prefix.len() - i,
    {
        if path[i] != prefix[i] {
            assert(path.deep_view().take(prefix.len() as int)[i as int] != prefix.deep_view()[i as int]);
            return false;
        }
        i = i + 1;
    }
    assert(path.deep_view().take(prefix.len() as int) =~= prefix.deep_view());
    true
}

/// Whether two paths have the same components.
pub fn same_path(a: &Vec<String>, b: &Vec<String>) -> (r: bool)
    ensures
        r == (a.deep_view() == b.deep_view()),
{
    let same = a.len() == b.len() && starts_with(a, b);
    proof {
        assert(a.deep_view().len() == a@.len());
        if same {
            assert(a.deep_view() =~= b.deep_view());
        }
        if a.deep_view() == b.deep_view() {
            assert(a.deep_view().take(b.len() as int) =~= b.deep_view());
        }
    }
    same
}

/// Rewrites `path` relative to `root`; fails where `path` is not `root` or
/// below it.
pub fn relative_path(root: &Vec<String>, path: &Vec<String>) -> (r: Result<Vec<String>, crate::hotspot::HotspotError>)
    ensures
        r is Ok <==> is_prefix(root.deep_view(), path.deep_view()),
        r matches Ok(rel) ==> rel.deep_view() == relative_to(root.deep_view(), path.deep_view()),
        r matches Err(e) ==> e == crate::hotspot::HotspotError::PathOutsideRoot,
{
    if !starts_with(path, root) {
        return Err(crate::hotspot::HotspotError::PathOutsideRoot);
    }
    Ok(components_from(path, root.len()))
}

/// The components of `path` from index `start` on.
pub fn components_from(path: &Vec<String>, start: usize) -> (r: Vec<String>)
    requires
        start <= path.len(),
    ensures
        r.deep_view() == path.deep_view().skip(start as int),
{
    let mut r: Vec<String> = Vec::new();
    let mut i: usize = start;
    while i < path.len()
        invariant
            start <= i <= path.len(),
            r.deep_view() == path.deep_view().subrange(start as int, i as int),
        decreases path.len() - i,
    {
        let ghost old_dv = r.deep_view();
        let s = path[i].clone();
        r.push(s);
        proof {
            assert(r.deep_view().last() == path.deep_view()[i as int]);
            assert(r.deep_view().drop_last() =~= old_dv);
        }
        i = i + 1;
        assert(r.deep_view() =~= path.deep_view().subrange(start as int, i as int));
    }
    assert(path.deep_view().skip(start as int) =~= path.deep_view().subrange(start as int, path.len() as int));
    r
}

/// The first `len` components of `path`.
pub fn components_to(path: &Vec<String>, len: usize) -> (r: Vec<String>)
    requires
        len <= path.len(),
    ensures
        r.deep_view() == path.deep_view().take(len as int),
{
    let mut r: Vec<String> = Vec::new();
    let mut i: usize = 0;
    while i < len
        invariant
            i <= len <= path.len(),
            r.deep_view() == path.deep_view().take(i as int),
        decreases len - i,
    {
        let ghost old_dv = r.deep_view();
        let s = path[i].clone();
        r.push(s);
        proof {
            assert(r.deep_view().last() == path.deep_view()[i as int]);
            assert(r.deep_view().drop_last() =~= old_dv);
        }
        i = i + 1;
        assert(r.deep_view() =~= path.deep_view().take(i as int));
    }
    r
}

/// `root` followed by the components of `relative`.
pub fn join(root: &Vec<String>, relative: &Vec<String>) -> (r: Vec<String>)
    ensures
        r.deep_view() == root.deep_view() + relative.deep_view(),
{
    let mut r = components_from(root, 0);
    assert(root.deep_view().skip(0) =~= root.deep_view());
    let mut i: usize = 0;
    while i < relative.len()
        invariant
            i <= relative.len(),
            r.deep_view() == root.deep_view() + relative.deep_view().take(i as int),
        decreases relative.len() - i,
    {
        let ghost old_dv = r.deep_view();
        let s = relative[i].clone();
        r.push(s);
        proof {
            assert(r.deep_view().last() == relative.deep_view()[i as int]);
            assert(r.deep_view().drop_last() =~= old_dv);
            assert(r.deep_view() =~= old_dv.push(relative.deep_view()[i as int]));
            assert(relative.deep_view().take(i + 1) =~= relative.deep_view().take(i as int).push(relative.deep_view()[i as int]));
        }
        i = i + 1;
        assert(r.deep_view() =~= root.deep_view() + relative.deep_view().take(i as int));
    }
    assert(relative.deep_view().take(relative.len() as int) =~= relative.deep_view());
    r
}

/// Rewriting a path relative to the root and joining it back onto the root
/// gives the path again.
pub proof fn lemma_relative_path_round_trip(root: PathView, path: PathView)
    requires
        is_prefix(root, path),
    ensures
        root + relative_to(root, path) == path,
{
    assert(root + relative_to(root, path) =~= path);
}

/// Whether the path's last component names a source file (a `.py` extension).
pub fn is_source_file(path: &Vec<String>) -> (r: bool)
    ensures
        r == is_source_path(path.deep_view()),
{
    if path.len() == 0 {
        return false;
    }
    let name: &[u8] = path[path.len() - 1].as_str().as_bytes();
    assert(name@ == encode_utf8(path.deep_view().last()));
    let n = name.len();
    n > 3 && name[n - 3] == 46u8 && name[n - 2] == 112u8 && name[n - 1] == 121u8
}

/// Byte-wise comparison of two strings.
pub fn compare_bytes(a: &[u8], b: &[u8]) -> (r: i8)
    ensures
        r as int == bytes_cmp(a@, b@),
{
    let mut i: usize = 0;
    assert(a@.skip(0) =~= a@);
    assert(b@.skip(0) =~= b@);
    while i < a.len() && i < b.len()
        invariant
            i <= a.len(),
            i <= b.len(),
            bytes_cmp(a@, b@) == bytes_cmp(a@.skip(i as int), b@.skip(i as int)),
        decreases a.len() - i,
    {
        if a[i] < b[i] {
            return -1;
        }
        if a[i] > b[i] {
            return 1;
        }
        assert(a@.skip(i as int).drop_first() =~= a@.skip(i + 1));
        assert(b@.skip(i as int).drop_first() =~= b@.skip(i + 1));
        i = i + 1;
    }
    if i < a.len() {
        1
    } else if i < b.len() {
        -1
    } else {
        0
    }
}

} // verus!
