//! Relative-path arithmetic: decomposing absolute paths into segments,
//! finding the common ancestor of two paths, and computing the relative
//! path that a symlink should carry so it survives relocation of the
//! whole tree.

use vstd::prelude::*;

verus! {

/// The segments of a path string: the maximal runs of characters between
/// `/` separators, in order, with empty runs dropped.
pub open spec fn segs(s: Seq<char>) -> Seq<Seq<char>>
    decreases s.len(),
{
    if s.len() == 0 {
        Seq::empty()
    } else {
        let r = segs(s.drop_last());
        let c = s.last();
        if c == '/' {
            r
        } else if s.len() == 1 || s[s.len() - 2] == '/' {
            r.push(seq![c])
        } else {
            r.update(r.len() - 1, r.last().push(c))
        }
    }
}

/// A path whose last character is not a separator decomposes into at
/// least one segment.
proof fn lemma_segs_nonempty(s: Seq<char>)
    requires
        s.len() > 0,
        s.last() != '/',
    ensures
        segs(s).len() >= 1,
    decreases s.len(),
{
    if s.len() == 1 || s[s.len() - 2] == '/' {
    } else {
        lemma_segs_nonempty(s.drop_last());
    }
}

/// Splits a path string into its segments.
pub fn split_path(path: &str) -> (r: Vec<String>)
    ensures
        r.deep_view() == segs(path@),
{
    let n = path.unicode_len();
    let mut r: Vec<String> = Vec::new();
    let mut seg_start: usize = 0;
    let mut i: usize = 0;
    while i < n
        invariant
            seg_start <= i <= n,
            n == path@.len(),
            forall|j: int| seg_start <= j < i ==> path@[j] != '/',
            seg_start == 0 || path@[seg_start - 1] == '/',
            r.deep_view() == segs(path@.subrange(0, seg_start as int)),
            seg_start < i ==> segs(path@.subrange(0, i as int)) == r.deep_view().push(
                path@.subrange(seg_start as int, i as int),
            ),
        decreases n - i,
    {
        let ghost pre = path@.subrange(0, i as int);
        let ghost pre1 = path@.subrange(0, i as int + 1);
        assert(pre1.drop_last() == pre);
        assert(pre1.last() == path@[i as int]);
        let c = path.get_char(i);
        if c == '/' {
            if seg_start < i {
                let seg = path.substring_char(seg_start, i);
                let owned = seg.to_owned();
                r.push(owned);
                assert(r.deep_view() == segs(pre1)) by {
                    assert(segs(pre1) == segs(pre));
                    assert(r.deep_view() =~= r.deep_view().subrange(0, r.deep_view().len() - 1).push(
                        path@.subrange(seg_start as int, i as int),
                    ));
                }
            }
            assert(segs(path@.subrange(0, i as int + 1)) == segs(path@.subrange(
                0,
                seg_start as int,
            )) || seg_start < i);
            seg_start = i + 1;
            assert(r.deep_view() == segs(path@.subrange(0, seg_start as int))) by {
                assert(path@.subrange(0, seg_start as int) == pre1);
            }
        } else {
            if seg_start == i {
                // a new segment starts at i
                assert(segs(pre1) == segs(pre).push(seq![c])) by {
                    if pre1.len() == 1 {
                    } else {
                        assert(pre1[pre1.len() - 2] == path@[i as int - 1]);
                    }
                }
                assert(segs(pre1) == r.deep_view().push(path@.subrange(
                    seg_start as int,
                    i as int + 1,
                ))) by {
                    assert(path@.subrange(seg_start as int, i as int + 1) =~= seq![c]);
                }
            } else {
                // the current segment continues
                let ghost cur = path@.subrange(seg_start as int, i as int);
                assert(pre1[pre1.len() - 2] == path@[i as int - 1]);
                assert(path@[i as int - 1] != '/');
                assert(pre1.len() >= 2);
                assert(segs(pre1) == segs(pre).update(segs(pre).len() - 1, segs(pre).last().push(c)));
                assert(segs(pre) == r.deep_view().push(cur));
                assert(segs(pre).last() == cur);
                assert(segs(pre).update(segs(pre).len() - 1, cur.push(c)) =~= r.deep_view().push(
                    cur.push(c),
                ));
                assert(cur.push(c) =~= path@.subrange(seg_start as int, i as int + 1));
            }
        }
        i = i + 1;
    }
    proof {
        if seg_start < n {
            assert(path@.subrange(0, n as int) =~= path@);
        } else {
            assert(path@.subrange(0, seg_start as int) =~= path@);
        }
    }
    if seg_start < n {
        let seg = path.substring_char(seg_start, n);
        let owned = seg.to_owned();
        r.push(owned);
        assert(r.deep_view() =~= segs(path@));
    }
    r
}

/// The number of leading segments on which two decomposed paths agree.
pub open spec fn common_len(a: Seq<Seq<char>>, b: Seq<Seq<char>>) -> nat
    decreases a.len(),
{
    if a.len() == 0 || b.len() == 0 || a[0] != b[0] {
        0
    } else {
        1 + common_len(a.drop_first(), b.drop_first())
    }
}

proof fn lemma_common_len_is(a: Seq<Seq<char>>, b: Seq<Seq<char>>, n: nat)
    requires
        n <= a.len(),
        n <= b.len(),
        forall|i: int| 0 <= i < n ==> a[i] == b[i],
        n < a.len() && n < b.len() ==> a[n as int] != b[n as int],
    ensures
        common_len(a, b) == n,
    decreases n,
{
    if n == 0 {
    } else {
        assert(a[0] == b[0]);
        lemma_common_len_is(a.drop_first(), b.drop_first(), (n - 1) as nat);
    }
}

/// The common prefix never reaches past either path.
pub proof fn lemma_common_len_bounds(a: Seq<Seq<char>>, b: Seq<Seq<char>>)
    ensures
        common_len(a, b) <= a.len(),
        common_len(a, b) <= b.len(),
        forall|i: int| 0 <= i < common_len(a, b) ==> a[i] == b[i],
    decreases a.len(),
{
    if a.len() == 0 || b.len() == 0 || a[0] != b[0] {
    } else {
        lemma_common_len_bounds(a.drop_first(), b.drop_first());
        assert forall|i: int| 0 <= i < common_len(a, b) implies a[i] == b[i] by {
            if i > 0 {
                assert(a.drop_first()[i - 1] == b.drop_first()[i - 1]);
            }
        }
    }
}

/// Counts how many leading segments two segment vectors share.
fn common_count(v1: &Vec<String>, v2: &Vec<String>) -> (k: usize)
    ensures
        k == common_len(v1.deep_view(), v2.deep_view()),
{
    let n = if v1.len() < v2.len() {
        v1.len()
    } else {
        v2.len()
    };
    let mut i: usize = 0;
    while i < n && v1[i] == v2[i]
        invariant
            i <= n,
            n <= v1.len(),
            n <= v2.len(),
            n == v1.len() || n == v2.len(),
            forall|j: int| 0 <= j < i ==> v1.deep_view()[j] == v2.deep_view()[j],
        decreases n - i,
    {
        i = i + 1;
    }
    proof {
        lemma_common_len_is(v1.deep_view(), v2.deep_view(), i as nat);
    }
    i
}

/// The longest shared leading run of segments of two paths.
pub fn common_prefix(path1: &str, path2: &str) -> (r: Vec<String>)
    ensures
        r.deep_view() == segs(path1@).subrange(
            0,
            common_len(segs(path1@), segs(path2@)) as int,
        ),
{
    let v1 = split_path(path1);
    let v2 = split_path(path2);
    let k = common_count(&v1, &v2);
    proof {
        lemma_common_len_bounds(v1.deep_view(), v2.deep_view());
    }
    let mut r: Vec<String> = Vec::new();
    let mut i: usize = 0;
    while i < k
        invariant
            i <= k,
            k <= v1.len(),
            r.deep_view() == v1.deep_view().subrange(0, i as int),
        decreases k - i,
    {
        let s = v1[i].clone();
        assert(r.deep_view().len() == i);
        assert(r@.len() == i);
        r.push(s);
        assert(r.deep_view() =~= v1.deep_view().subrange(0, i as int + 1));
        i = i + 1;
    }
    r
}

/// The segments joined back into a path string with `/` separators.
pub open spec fn join_segs(ss: Seq<Seq<char>>) -> Seq<char>
    decreases ss.len(),
{
    if ss.len() == 0 {
        Seq::empty()
    } else if ss.len() == 1 {
        ss[0]
    } else {
        join_segs(ss.drop_last()) + seq!['/'] + ss.last()
    }
}

/// Joins segments into a relative path string.
fn join_parts(parts: &Vec<String>) -> (r: String)
    ensures
        r@ == join_segs(parts.deep_view()),
{
    let mut r = String::new();
    let mut i: usize = 0;
    while i < parts.len()
        invariant
            i <= parts.len(),
            r@ == join_segs(parts.deep_view().subrange(0, i as int)),
        decreases parts.len() - i,
    {
        let ghost before = parts.deep_view().subrange(0, i as int);
        let ghost after = parts.deep_view().subrange(0, i as int + 1);
        assert(after.drop_last() =~= before);
        assert(after.last() == parts.deep_view()[i as int]);
        if i > 0 {
            r.append("/");
            proof {
                reveal_strlit("/");
            }
        }
        r.append(parts[i].as_str());
        assert(r@ == join_segs(after));
        i = i + 1;
    }
    proof {
        assert(parts.deep_view().subrange(0, parts.len() as int) =~= parts.deep_view());
    }
    r
}

/// A run of `m` `..` segments.
pub open spec fn dotdots(m: nat) -> Seq<Seq<char>> {
    Seq::new(m, |i: int| seq!['.', '.'])
}

/// The segments of the relative path from `a` (the origin) to the
/// directory holding `b` (the symlink): one `..` per directory between
/// the symlink's parent and the common ancestor, then the origin's tail.
pub open spec fn rel_segs(a: Seq<Seq<char>>, b: Seq<Seq<char>>) -> Seq<Seq<char>> {
    let k = common_len(a, b) as int;
    let m: int = if b.len() > k {
        b.len() - k - 1
    } else {
        0
    };
    dotdots(m as nat) + a.skip(k)
}

/// The relative path from origin `a` to the symlink location `b`, as a string.
pub open spec fn rel_string(a: Seq<Seq<char>>, b: Seq<Seq<char>>) -> Seq<char> {
    join_segs(rel_segs(a, b))
}

/// A well-formed path segment: non-empty and free of separators.
pub open spec fn seg_wf(seg: Seq<char>) -> bool {
    seg.len() > 0 && forall|q: int| 0 <= q < seg.len() ==> seg[q] != '/'
}

/// Every segment a path decomposes into is well-formed.
pub proof fn lemma_segs_wf(s: Seq<char>)
    ensures
        forall|i: int| 0 <= i < segs(s).len() ==> #[trigger] seg_wf(segs(s)[i]),
    decreases s.len(),
{
    if s.len() == 0 {
    } else {
        lemma_segs_wf(s.drop_last());
        let r = segs(s.drop_last());
        let c = s.last();
        if c == '/' {
        } else if s.len() == 1 || s[s.len() - 2] == '/' {
            assert(seg_wf(seq![c]));
        } else {
            lemma_segs_nonempty(s.drop_last());
            assert(seg_wf(r.last()));
            assert(seg_wf(r.last().push(c)));
        }
    }
}

/// A string made of one well-formed segment decomposes into that segment.
proof fn lemma_segs_single(y: Seq<char>)
    requires
        seg_wf(y),
    ensures
        segs(y) == seq![y],
    decreases y.len(),
{
    if y.len() == 1 {
        assert(y[0] != '/');
        assert(y.drop_last() =~= Seq::<char>::empty());
        assert(segs(Seq::<char>::empty()) == Seq::<Seq<char>>::empty());
        assert(segs(y) == Seq::<Seq<char>>::empty().push(seq![y.last()]));
        assert(seq![y.last()] =~= y);
        assert(segs(y) =~= seq![y]);
    } else {
        assert(seg_wf(y.drop_last()));
        lemma_segs_single(y.drop_last());
        assert(y[y.len() - 2] != '/');
        assert(segs(y) == seq![y.drop_last()].update(0, y.drop_last().push(y.last())));
        assert(y.drop_last().push(y.last()) =~= y);
        assert(segs(y) =~= seq![y]);
    }
}

/// Appending a separator and one well-formed segment appends that
/// segment to the decomposition.
proof fn lemma_segs_append(x: Seq<char>, y: Seq<char>)
    requires
        seg_wf(y),
    ensures
        segs(x + seq!['/'] + y) == segs(x).push(y),
    decreases y.len(),
{
    let s = x + seq!['/'] + y;
    if y.len() == 1 {
        assert(s.last() == y[0]);
        assert(s[s.len() - 2] == '/');
        assert(s.drop_last() =~= x + seq!['/']);
        assert((x + seq!['/']).drop_last() =~= x);
        assert(segs(x + seq!['/']) == segs(x));
        assert(segs(s) == segs(x).push(seq![y[0]]));
        assert(seq![y[0]] =~= y);
    } else {
        assert(seg_wf(y.drop_last()));
        lemma_segs_append(x, y.drop_last());
        assert(s.last() == y.last());
        assert(s.last() != '/');
        assert(s[s.len() - 2] == y[y.len() - 2]);
        assert(s[s.len() - 2] != '/');
        assert(s.drop_last() =~= x + seq!['/'] + y.drop_last());
        let r = segs(s.drop_last());
        assert(r == segs(x).push(y.drop_last()));
        assert(r.len() >= 1);
        assert(r.last() == y.drop_last());
        assert(segs(s) == r.update(r.len() - 1, y.drop_last().push(y.last())));
        assert(y.drop_last().push(y.last()) =~= y);
        assert(segs(s) =~= segs(x).push(y));
    }
}

/// Splitting undoes joining, for well-formed segments.
pub proof fn lemma_join_segs_roundtrip(ss: Seq<Seq<char>>)
    requires
        forall|i: int| 0 <= i < ss.len() ==> #[trigger] seg_wf(ss[i]),
    ensures
        segs(join_segs(ss)) == ss,
    decreases ss.len(),
{
    if ss.len() == 0 {
    } else if ss.len() == 1 {
        assert(seg_wf(ss[0]));
        lemma_segs_single(ss[0]);
        assert(segs(join_segs(ss)) =~= ss);
    } else {
        lemma_join_segs_roundtrip(ss.drop_last());
        assert(seg_wf(ss.last()));
        lemma_segs_append(join_segs(ss.drop_last()), ss.last());
        assert(segs(join_segs(ss)) == segs(join_segs(ss.drop_last())).push(ss.last()));
        assert(ss.drop_last().push(ss.last()) =~= ss);
    }
}

/// The location a relative path names, starting from a directory: each
/// `..` steps up to the parent, every other segment steps down into it.
pub open spec fn resolve(dir: Seq<Seq<char>>, rel: Seq<Seq<char>>) -> Seq<Seq<char>>
    decreases rel.len(),
{
    if rel.len() == 0 {
        dir
    } else if rel[0] == seq!['.', '.'] {
        resolve(
            if dir.len() > 0 {
                dir.drop_last()
            } else {
                dir
            },
            rel.drop_first(),
        )
    } else {
        resolve(dir.push(rel[0]), rel.drop_first())
    }
}

/// A run of `..` segments strips as many trailing components.
proof fn lemma_resolve_dots(dir: Seq<Seq<char>>, rest: Seq<Seq<char>>, m: nat)
    requires
        m <= dir.len(),
    ensures
        resolve(dir, dotdots(m) + rest) == resolve(dir.take(dir.len() - m), rest),
    decreases m,
{
    if m == 0 {
        assert(dotdots(0) + rest =~= rest);
        assert(dir.take(dir.len() as int) =~= dir);
    } else {
        let rel = dotdots(m) + rest;
        assert(rel[0] == seq!['.', '.']);
        assert(rel.drop_first() =~= dotdots((m - 1) as nat) + rest);
        assert(dir.drop_last() =~= dir.take(dir.len() - 1));
        lemma_resolve_dots(dir.take(dir.len() - 1), rest, (m - 1) as nat);
        assert(dir.take(dir.len() - 1).take(dir.len() - m) =~= dir.take(dir.len() - m));
    }
}

/// Segments other than `..` are appended in order.
proof fn lemma_resolve_down(dir: Seq<Seq<char>>, rel: Seq<Seq<char>>)
    requires
        forall|i: int| 0 <= i < rel.len() ==> rel[i] != seq!['.', '.'],
    ensures
        resolve(dir, rel) == dir + rel,
    decreases rel.len(),
{
    if rel.len() == 0 {
        assert(dir + rel =~= dir);
    } else {
        lemma_resolve_down(dir.push(rel[0]), rel.drop_first());
        assert(dir.push(rel[0]) + rel.drop_first() =~= dir + rel);
    }
}

/// Law: for absolute paths that share an ancestor below the root, the
/// relative path computed for a symlink at `p2` pointing at origin `p1`,
/// resolved against the symlink's own parent directory, names the origin
/// again. `p1` must name a real location directly, without `..` steps,
/// and the symlink must sit strictly below the common ancestor.
pub proof fn lemma_relative_resolves(p1: Seq<char>, p2: Seq<char>)
    requires
        crate::is_abs(p1),
        crate::is_abs(p2),
        common_len(segs(p1), segs(p2)) >= 1,
        common_len(segs(p1), segs(p2)) < segs(p2).len(),
        forall|i: int| 0 <= i < segs(p1).len() ==> segs(p1)[i] != seq!['.', '.'],
    ensures
        resolve(segs(p2).drop_last(), segs(rel_string(segs(p1), segs(p2)))) == segs(p1),
{
    let a = segs(p1);
    let b = segs(p2);
    let k = common_len(a, b) as int;
    lemma_common_len_bounds(a, b);
    let m = b.len() - k - 1;
    let dir = b.drop_last();
    let base1 = a.skip(k);

    // the joined relative string splits back into its segments
    lemma_segs_wf(p1);
    assert forall|i: int| 0 <= i < rel_segs(a, b).len() implies #[trigger] seg_wf(
        rel_segs(a, b)[i],
    ) by {
        if i < m {
            assert(rel_segs(a, b)[i] == dotdots(m as nat)[i]);
            assert(rel_segs(a, b)[i] =~= seq!['.', '.']);
            assert(seg_wf(seq!['.', '.']));
        } else {
            assert(rel_segs(a, b)[i] == base1[i - m]);
            assert(base1[i - m] == a[i - m + k]);
            assert(seg_wf(a[i - m + k]));
        }
    }
    lemma_join_segs_roundtrip(rel_segs(a, b));

    // the `..` run climbs from the symlink's parent to the common ancestor
    assert(rel_segs(a, b) == dotdots(m as nat) + base1);
    lemma_resolve_dots(dir, base1, m as nat);
    assert(dir.take(dir.len() - m) =~= a.take(k)) by {
        assert(dir.len() - m == k);
        assert(forall|i: int| 0 <= i < k ==> dir[i] == b[i]);
        assert(forall|i: int| 0 <= i < k ==> a[i] == b[i]);
    }

    // the origin's tail climbs back down
    assert(forall|i: int| 0 <= i < base1.len() ==> base1[i] == a[i + k]);
    lemma_resolve_down(a.take(k), base1);
    assert(a.take(k) + base1 =~= a);
}

/// The index of the last separator of a path, or `-1` if it has none.
pub open spec fn find_last_slash(s: Seq<char>) -> int
    decreases s.len(),
{
    if s.len() == 0 {
        -1
    } else if s.last() == '/' {
        s.len() - 1
    } else {
        find_last_slash(s.drop_last())
    }
}

proof fn lemma_abs_has_slash(s: Seq<char>)
    requires
        crate::is_abs(s),
    ensures
        0 <= find_last_slash(s) < s.len(),
    decreases s.len(),
{
    if s.last() == '/' {
    } else {
        lemma_abs_has_slash(s.drop_last());
    }
}

/// The location an absolute symlink resolves to, given what the link
/// itself carries on disk: an absolute carried path stands on its own,
/// and a relative one is read from the link's own parent directory.
pub open spec fn spec_symlink_real_path(link: Seq<char>, dest: Seq<char>) -> Seq<char> {
    if crate::is_abs(dest) {
        dest
    } else {
        let j = find_last_slash(link);
        if j == 0 {
            seq!['/'] + dest
        } else {
            link.take(j) + seq!['/'] + dest
        }
    }
}

/// Joins what a symlink carries on disk with the link's own parent
/// directory, naming the real location the link points at.
pub fn get_symlink_real_path(link: &str, dest: &str) -> (r: String)
    requires
        crate::is_abs(link@),
    ensures
        r@ == spec_symlink_real_path(link@, dest@),
{
    proof {
        lemma_abs_has_slash(link@);
    }
    if crate::is_absolute(dest) {
        return dest.to_owned();
    }
    let n = link.unicode_len();
    let mut i: usize = n;
    proof {
        assert(link@.subrange(0, n as int) =~= link@);
    }
    while i > 0 && link.get_char(i - 1) != '/'
        invariant
            i <= n,
            n == link@.len(),
            crate::is_abs(link@),
            find_last_slash(link@) == find_last_slash(link@.subrange(0, i as int)),
        decreases i,
    {
        proof {
            let cut = link@.subrange(0, i as int);
            assert(cut.last() == link@[i - 1]);
            assert(cut.drop_last() =~= link@.subrange(0, i as int - 1));
        }
        i = i - 1;
    }
    proof {
        if i == 0 {
            assert(link@.subrange(0, 0) =~= Seq::<char>::empty());
            assert(find_last_slash(link@) == -1);
            assert(false);
        }
        let cut = link@.subrange(0, i as int);
        assert(cut.last() == link@[i - 1]);
        assert(find_last_slash(cut) == i - 1);
    }
    let j = i - 1;
    if j == 0 {
        let mut r = "/".to_owned();
        proof {
            reveal_strlit("/");
            assert(r@ =~= seq!['/']);
        }
        r.append(dest);
        r
    } else {
        let parent = link.substring_char(0, j);
        let mut r = parent.to_owned();
        r.append("/");
        proof {
            reveal_strlit("/");
            assert(r@ =~= link@.take(j as int) + seq!['/']);
        }
        r.append(dest);
        proof {
            assert(r@ =~= link@.take(j as int) + seq!['/'] + dest@);
        }
        r
    }
}

/// Rejection of a path that is not absolute.
#[derive(Clone, Copy, PartialEq, Eq, Debug)]
pub enum PathError {
    InvalidInput,
}

/// What a symlink carries on disk: the relative path where the two
/// absolute paths share an ancestor below the root, and the origin
/// itself otherwise.
pub open spec fn spec_relative(p1: Seq<char>, p2: Seq<char>) -> Seq<char> {
    if common_len(segs(p1), segs(p2)) == 0 {
        p1
    } else {
        rel_string(segs(p1), segs(p2))
    }
}

/// Appends one name below a directory path.
pub fn join_path(base: &str, name: &str) -> (r: String)
    ensures
        r@ == base@ + seq!['/'] + name@,
{
    let mut r = base.to_owned();
    r.append("/");
    proof {
        reveal_strlit("/");
        assert(r@ =~= base@ + seq!['/']);
    }
    r.append(name);
    proof {
        assert(r@ =~= base@ + seq!['/'] + name@);
    }
    r
}

/// Computes the path that a symlink at `path2` must carry to reach
/// `path1`: relative wherever the two absolute paths share an ancestor
/// below the root, and `path1` itself otherwise.
pub fn relative(path1: &str, path2: &str) -> (r: Result<String, PathError>)
    ensures
        r is Err <==> !(crate::is_abs(path1@) && crate::is_abs(path2@)),
        r is Ok ==> common_len(segs(path1@), segs(path2@)) == 0 ==> r->Ok_0@ == path1@,
        r is Ok ==> common_len(segs(path1@), segs(path2@)) > 0 ==> r->Ok_0@ == rel_string(
            segs(path1@),
            segs(path2@),
        ),
        r is Ok ==> r->Ok_0@ == spec_relative(path1@, path2@),
{
    if !(crate::is_absolute(path1) && crate::is_absolute(path2)) {
        return Err(PathError::InvalidInput);
    }
    let v1 = split_path(path1);
    let v2 = split_path(path2);
    let k = common_count(&v1, &v2);
    proof {
        lemma_common_len_bounds(v1.deep_view(), v2.deep_view());
    }
    if k == 0 {
        return Ok(path1.to_owned());
    }
    let m: usize = if v2.len() > k {
        v2.len() - k - 1
    } else {
        0
    };
    let mut parts: Vec<String> = Vec::new();
    let mut i: usize = 0;
    while i < m
        invariant
            i <= m,
            parts@.len() == i,
            forall|t: int| 0 <= t < i ==> parts@[t]@ == seq!['.', '.'],
        decreases m - i,
    {
        let dots = "..".to_owned();
        proof {
            reveal_strlit("..");
            assert(dots@ =~= seq!['.', '.']);
        }
        let ghost p0 = parts@;
        parts.push(dots);
        proof {
            assert forall|t: int| 0 <= t < i + 1 implies parts@[t]@ == seq!['.', '.'] by {
                if t < i {
                    assert(parts@[t] == p0[t]);
                }
            }
        }
        i = i + 1;
    }
    let mut j: usize = k;
    while j < v1.len()
        invariant
            k <= j <= v1.len(),
            m + j >= k,
            parts@.len() == m + j - k,
            forall|t: int| 0 <= t < m ==> parts@[t]@ == seq!['.', '.'],
            forall|t: int| m <= t < m + j - k ==> parts@[t]@ == v1.deep_view()[k + t - m],
        decreases v1.len() - j,
    {
        let s = v1[j].clone();
        let ghost p0 = parts@;
        parts.push(s);
        proof {
            assert(v1.deep_view()[j as int] == v1@[j as int]@);
            assert forall|t: int| 0 <= t < m + (j + 1) - k implies (if t < m {
                parts@[t]@ == seq!['.', '.']
            } else {
                parts@[t]@ == v1.deep_view()[k + t - m]
            }) by {
                if t < m + j - k {
                    assert(parts@[t] == p0[t]);
                } else {
                    assert(parts@[t] == s);
                }
            }
        }
        j = j + 1;
    }
    proof {
        let a = v1.deep_view();
        let b = v2.deep_view();
        assert forall|t: int| 0 <= t < parts@.len() implies parts.deep_view()[t] == rel_segs(
            a,
            b,
        )[t] by {
            assert(parts.deep_view()[t] == parts@[t]@);
            if t < m {
                assert(rel_segs(a, b)[t] == dotdots(m as nat)[t]);
                assert(dotdots(m as nat)[t] == seq!['.', '.']);
            } else {
                assert(rel_segs(a, b)[t] == a.skip(k as int)[t - m]);
                assert(a.skip(k as int)[t - m] == a[t - m + k]);
            }
        }
        assert(parts.deep_view().len() == parts@.len());
        assert(rel_segs(a, b).len() == parts@.len());
        assert(parts.deep_view() =~= rel_segs(a, b));
    }
    Ok(join_parts(&parts))
}

} // verus!
