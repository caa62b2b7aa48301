//! Comparing paths component by component, as `Path`'s equality does on
//! Unix: repeated and trailing separators and `.` components (other than a
//! leading one) do not count.
use vstd::prelude::*;

verus! {

pub open spec fn is_separator(b: u8) -> bool {
    b == 0x2f
}

/// Length of the run of non-separator bytes at the start of `s`.
pub open spec fn segment_len(s: Seq<u8>) -> nat
    decreases s.len(),
{
    if s.len() == 0 || is_separator(s[0]) {
        0
    } else {
        1 + segment_len(s.drop_first())
    }
}

/// The maximal runs of non-separator bytes of `s`, in order.
pub open spec fn path_segments(s: Seq<u8>) -> Seq<Seq<u8>>
    decreases s.len(),
{
    if s.len() == 0 {
        seq![]
    } else if is_separator(s[0]) {
        path_segments(s.drop_first())
    } else {
        let n = segment_len(s);
        if 0 < n <= s.len() {
            seq![s.take(n as int)] + path_segments(s.skip(n as int))
        } else {
            seq![]
        }
    }
}

pub open spec fn is_dot(segment: Seq<u8>) -> bool {
    segment == seq![0x2eu8]
}

/// The components of `s` other than the root and `.`.
pub open spec fn normal_components(s: Seq<u8>) -> Seq<Seq<u8>> {
    path_segments(s).filter(|c: Seq<u8>| !is_dot(c))
}

pub open spec fn has_root(s: Seq<u8>) -> bool {
    s.len() > 0 && is_separator(s[0])
}

/// A relative path that starts with the component `.` keeps it.
pub open spec fn leading_cur_dir(s: Seq<u8>) -> bool {
    !has_root(s) && path_segments(s).len() > 0 && is_dot(path_segments(s)[0])
}

/// Whether two paths have the same components.
pub open spec fn same_path(a: Seq<u8>, b: Seq<u8>) -> bool {
    &&& has_root(a) == has_root(b)
    &&& leading_cur_dir(a) == leading_cur_dir(b)
    &&& normal_components(a) == normal_components(b)
}

proof fn lemma_segment_len_step(s: Seq<u8>, i: int)
    requires
        0 <= i < s.len(),
        !is_separator(s[i]),
    ensures
        segment_len(s.skip(i)) == 1 + segment_len(s.skip(i + 1)),
{
    assert(s.skip(i).drop_first() =~= s.skip(i + 1));
}

/// The normal components of `s`, each given by its start and end, and
/// whether the first segment is `.`.
fn components(s: &[u8]) -> (out: (Vec<(usize, usize)>, bool))
    ensures
        out.0@.len() == normal_components(s@).len(),
        forall|k: int|
            0 <= k < out.0@.len() ==> {
                &&& (#[trigger] out.0@[k]).0 <= out.0@[k].1 <= s@.len()
                &&& s@.subrange(out.0@[k].0 as int, out.0@[k].1 as int) == normal_components(
                    s@,
                )[k]
            },
        out.1 == (path_segments(s@).len() > 0 && is_dot(path_segments(s@)[0])),
{
    let ghost keep = |c: Seq<u8>| !is_dot(c);
    let mut normals: Vec<(usize, usize)> = Vec::new();
    let mut first_is_dot = false;
    let mut seen_any = false;
    let mut i: usize = 0;
    let ghost done: Seq<Seq<u8>> = seq![];
    assert(s@.skip(0) =~= s@);
    assert(done.filter(keep) =~= seq![]) by {
        reveal(Seq::filter);
    }
    while i < s.len()
        invariant
            keep == (|c: Seq<u8>| !is_dot(c)),
            i <= s@.len(),
            path_segments(s@) == done + path_segments(s@.skip(i as int)),
            seen_any == (done.len() > 0),
            seen_any ==> first_is_dot == is_dot(done[0]),
            !seen_any ==> !first_is_dot,
            normals@.len() == done.filter(keep).len(),
            forall|k: int|
                0 <= k < normals@.len() ==> {
                    &&& (#[trigger] normals@[k]).0 <= normals@[k].1 <= i
                    &&& s@.subrange(normals@[k].0 as int, normals@[k].1 as int) == done.filter(
                        keep,
                    )[k]
                },
        decreases s@.len() - i,
    {
        if s[i] == 0x2f {
            assert(s@.skip(i as int).drop_first() =~= s@.skip(i + 1));
            i = i + 1;
        } else {
            let start = i;
            let mut j = i;
            while j < s.len() && s[j] != 0x2f
                invariant
                    start <= j <= s@.len(),
                    start < s@.len(),
                    !is_separator(s@[start as int]),
                    segment_len(s@.skip(start as int)) == (j - start) + segment_len(
                        s@.skip(j as int),
                    ),
                decreases s@.len() - j,
            {
                proof {
                    lemma_segment_len_step(s@, j as int);
                }
                j = j + 1;
            }
            let ghost seg = s@.subrange(start as int, j as int);
            proof {
                if j < s@.len() {
                    assert(s@.skip(j as int)[0] == s@[j as int]);
                } else {
                    assert(s@.skip(j as int).len() == 0);
                }
                assert(segment_len(s@.skip(j as int)) == 0);
                let t = s@.skip(start as int);
                assert(t.len() > 0 && !is_separator(t[0]));
                assert(t.take((j - start) as int) =~= seg);
                assert(t.skip((j - start) as int) =~= s@.skip(j as int));
                assert(path_segments(t) == seq![seg] + path_segments(s@.skip(j as int)));
            }
            let dot = j == start + 1 && s[start] == 0x2e;
            assert(dot == is_dot(seg)) by {
                if j == start + 1 && s[start as int] == 0x2e {
                    assert(seg =~= seq![0x2eu8]);
                }
            }
            if !seen_any {
                first_is_dot = dot;
                seen_any = true;
            }
            let ghost old_done = done;
            proof {
                done = done.push(seg);
                assert(done.drop_last() =~= old_done);
                assert(path_segments(s@) =~= done + path_segments(s@.skip(j as int)));
                if old_done.len() > 0 {
                    assert(done[0] == old_done[0]);
                } else {
                    assert(done[0] == seg);
                }
                reveal(Seq::filter);
                assert(done.filter(keep) == if keep(seg) {
                    old_done.filter(keep).push(seg)
                } else {
                    old_done.filter(keep)
                });
            }
            if !dot {
                normals.push((start, j));
            }
            i = j;
        }
    }
    proof {
        assert(s@.skip(i as int).len() == 0);
        assert(done =~= path_segments(s@));
    }
    (normals, first_is_dot)
}

fn range_eq(a: &[u8], ra: (usize, usize), b: &[u8], rb: (usize, usize)) -> (eq: bool)
    requires
        ra.0 <= ra.1 <= a@.len(),
        rb.0 <= rb.1 <= b@.len(),
    ensures
        eq == (a@.subrange(ra.0 as int, ra.1 as int) == b@.subrange(rb.0 as int, rb.1 as int)),
{
    if ra.1 - ra.0 != rb.1 - rb.0 {
        assert(a@.subrange(ra.0 as int, ra.1 as int).len() != b@.subrange(rb.0 as int, rb.1 as int).len());
        return false;
    }
    let n = ra.1 - ra.0;
    let ghost sa = a@.subrange(ra.0 as int, ra.1 as int);
    let ghost sb = b@.subrange(rb.0 as int, rb.1 as int);
    let mut k: usize = 0;
    while k < n
        invariant
            n == ra.1 - ra.0 == rb.1 - rb.0,
            ra.0 <= ra.1 <= a@.len(),
            rb.0 <= rb.1 <= b@.len(),
            sa == a@.subrange(ra.0 as int, ra.1 as int),
            sb == b@.subrange(rb.0 as int, rb.1 as int),
            k <= n,
            forall|m: int| 0 <= m < k ==> #[trigger] sa[m] == sb[m],
        decreases n - k,
    {
        if a[ra.0 + k] != b[rb.0 + k] {
            assert(sa[k as int] != sb[k as int]);
            return false;
        }
        assert(sa[k as int] == sb[k as int]);
        k = k + 1;
    }
    assert(a@.subrange(ra.0 as int, ra.1 as int) =~= b@.subrange(rb.0 as int, rb.1 as int));
    true
}

/// Whether two paths, given as bytes, name the same path component by
/// component.
pub fn paths_equal(a: &[u8], b: &[u8]) -> (eq: bool)
    ensures
        eq == same_path(a@, b@),
{
    let root_a = a.len() > 0 && a[0] == 0x2f;
    let root_b = b.len() > 0 && b[0] == 0x2f;
    if root_a != root_b {
        return false;
    }
    let (na, dot_a) = components(a);
    let (nb, dot_b) = components(b);
    if (!root_a && dot_a) != (!root_b && dot_b) {
        return false;
    }
    if na.len() != nb.len() {
        return false;
    }
    let mut k: usize = 0;
    while k < na.len()
        invariant
            na@.len() == nb@.len() == normal_components(a@).len() == normal_components(b@).len(),
            forall|m: int|
                0 <= m < na@.len() ==> {
                    &&& (#[trigger] na@[m]).0 <= na@[m].1 <= a@.len()
                    &&& a@.subrange(na@[m].0 as int, na@[m].1 as int) == normal_components(a@)[m]
                },
            forall|m: int|
                0 <= m < nb@.len() ==> {
                    &&& (#[trigger] nb@[m]).0 <= nb@[m].1 <= b@.len()
                    &&& b@.subrange(nb@[m].0 as int, nb@[m].1 as int) == normal_components(b@)[m]
                },
            k <= na@.len(),
            forall|m: int| 0 <= m < k ==> normal_components(a@)[m] == normal_components(b@)[m],
        decreases na@.len() - k,
    {
        if !range_eq(a, na[k], b, nb[k]) {
            return false;
        }
        k = k + 1;
    }
    assert(normal_components(a@) =~= normal_components(b@));
    true
}

} // verus!
