//! Triangle-strip construction for indexed triangle meshes.
//!
//! An index buffer holds `3 * k` vertex indices, three per triangle.
//! `tear_into_strips` greedily chains triangles that share an edge
//! into triangle strips; `concat_strips` stitches the strips back
//! into a single buffer with degenerate joins.  The central guarantee
//! is that stripping loses no geometry: the triangles spelled out by
//! the strips are exactly the distinct triangles of the input, up to
//! the order in which a triangle lists its corners.

use vstd::prelude::*;

verus! {

use vstd::multiset::Multiset;

broadcast use vstd::seq_lib::group_to_multiset_ensures, vstd::multiset::group_multiset_axioms;

/// A triangle as an ordered corner triple.
pub type Trig = (u32, u32, u32);

/// The unordered-pair normal form of an edge: smaller index first.
pub open spec fn spec_sorted2(a: u32, b: u32) -> (u32, u32) {
    if a <= b {
        (a, b)
    } else {
        (b, a)
    }
}

/// The fully sorted normal form of a triangle.  Two triangles have the
/// same `spec_sort3` exactly when they use the same corner indices,
/// in any order.
pub open spec fn spec_sort3(t: Trig) -> Trig {
    let (a, b, c) = t;
    if a <= b && a <= c {
        if b <= c {
            (a, b, c)
        } else {
            (a, c, b)
        }
    } else if b <= a && b <= c {
        if a <= c {
            (b, a, c)
        } else {
            (b, c, a)
        }
    } else {
        if a <= b {
            (c, a, b)
        } else {
            (c, b, a)
        }
    }
}

/// The sorted normal form lists the same corners as the triangle
/// itself, in weakly increasing order.
pub proof fn lemma_sort3_corners(t: Trig)
    ensures
        spec_sort3(t).0 <= spec_sort3(t).1 <= spec_sort3(t).2,
        seq![spec_sort3(t).0, spec_sort3(t).1, spec_sort3(t).2].to_multiset() == seq![
            t.0,
            t.1,
            t.2,
        ].to_multiset(),
{
    broadcast use vstd::seq_lib::group_to_multiset_ensures, vstd::multiset::group_multiset_axioms;

    let s = spec_sort3(t);
    assert(seq![s.0, s.1, s.2] =~= Seq::<u32>::empty().push(s.0).push(s.1).push(s.2));
    assert(seq![t.0, t.1, t.2] =~= Seq::<u32>::empty().push(t.0).push(t.1).push(t.2));
    assert(seq![s.0, s.1, s.2].to_multiset() =~= seq![t.0, t.1, t.2].to_multiset());
}

/// Two triangles have the same sorted normal form exactly when the
/// one lists the corners of the other in some order, with the same
/// multiplicity.
pub proof fn lemma_sort3_characterizes_corners(t1: Trig, t2: Trig)
    ensures
        (spec_sort3(t1) == spec_sort3(t2)) <==> seq![t1.0, t1.1, t1.2].to_multiset() == seq![
            t2.0,
            t2.1,
            t2.2,
        ].to_multiset(),
{
    broadcast use vstd::seq_lib::group_to_multiset_ensures, vstd::multiset::group_multiset_axioms;

    lemma_sort3_corners(t1);
    lemma_sort3_corners(t2);
    let s1 = spec_sort3(t1);
    let s2 = spec_sort3(t2);
    if seq![t1.0, t1.1, t1.2].to_multiset() == seq![t2.0, t2.1, t2.2].to_multiset() {
        // two sorted triples over the same corners agree position by
        // position
        let m = seq![s1.0, s1.1, s1.2].to_multiset();
        assert(seq![s2.0, s2.1, s2.2].to_multiset() == m);
        assert(seq![s1.0, s1.1, s1.2] =~= Seq::<u32>::empty().push(s1.0).push(s1.1).push(s1.2));
        assert(seq![s2.0, s2.1, s2.2] =~= Seq::<u32>::empty().push(s2.0).push(s2.1).push(s2.2));
        assert(m.count(s1.0) > 0);
        assert(m.count(s1.1) > 0);
        assert(m.count(s1.2) > 0);
        assert(s1 == s2) by {
            if s1.0 != s2.0 {
                if s1.0 < s2.0 {
                    assert(m.count(s1.0) == 0);
                } else {
                    assert(m.count(s2.0) == 0);
                    assert(m.count(s2.0) > 0);
                }
            }
            if s1.0 == s2.0 && s1.1 != s2.1 {
                let m1 = m.remove(s1.0);
                if s1.1 < s2.1 {
                    assert(m1.count(s1.1) == 0);
                    assert(m1.count(s1.1) > 0);
                } else {
                    assert(m1.count(s2.1) == 0);
                    assert(m1.count(s2.1) > 0);
                }
            }
            if s1.0 == s2.0 && s1.1 == s2.1 && s1.2 != s2.2 {
                let m2 = m.remove(s1.0).remove(s1.1);
                assert(m2 =~= Multiset::<u32>::empty().insert(s1.2));
                assert(m2 =~= Multiset::<u32>::empty().insert(s2.2));
                assert(m2.count(s1.2) > 0 && m2.count(s2.2) > 0);
            }
        }
    }
}

/// The `i`-th triangle of an index buffer.
pub open spec fn spec_trig_at(indices: Seq<u32>, i: int) -> Trig {
    (indices[3 * i], indices[3 * i + 1], indices[3 * i + 2])
}

/// All triangles of an index buffer, in order.
pub open spec fn spec_trigs(indices: Seq<u32>) -> Seq<Trig> {
    Seq::new((indices.len() / 3) as nat, |i: int| spec_trig_at(indices, i))
}

/// A sequence with later repetitions of an element dropped.
pub open spec fn spec_dedup<T>(s: Seq<T>) -> Seq<T>
    decreases s.len(),
{
    if s.len() == 0 {
        Seq::empty()
    } else if s.drop_last().contains(s.last()) {
        spec_dedup(s.drop_last())
    } else {
        spec_dedup(s.drop_last()).push(s.last())
    }
}

/// The consecutive corner triples of a strip: entry `i` is
/// `(s[i], s[i+1], s[i+2])`.
pub open spec fn spec_windows3(s: Seq<u32>) -> Seq<Trig> {
    Seq::new(if s.len() >= 3 {
        (s.len() - 2) as nat
    } else {
        0
    }, |i: int| (s[i], s[i + 1], s[i + 2]))
}

/// The sorted normal forms of a sequence of triangles, with
/// multiplicity.
pub open spec fn spec_keys(s: Seq<Trig>) -> Multiset<Trig> {
    s.map_values(|t: Trig| spec_sort3(t)).to_multiset()
}

/// The triangles of a strip, in sorted normal form, as a multiset.
pub open spec fn spec_strip_keys(s: Seq<u32>) -> Multiset<Trig> {
    spec_keys(spec_windows3(s))
}

/// The triangles of a whole strip list, in sorted normal form.
pub open spec fn spec_strips_keys(strips: Seq<Seq<u32>>) -> Multiset<Trig>
    decreases strips.len(),
{
    if strips.len() == 0 {
        Multiset::empty()
    } else {
        spec_strips_keys(strips.drop_last()).add(spec_strip_keys(strips.last()))
    }
}

/// The distinct triangles of an index buffer, in sorted normal form.
pub open spec fn spec_mesh_keys(indices: Seq<u32>) -> Multiset<Trig> {
    spec_keys(spec_dedup(spec_trigs(indices)))
}

/// Sorts an index pair, smaller first.
pub fn sorted(a: [u32; 2]) -> (r: [u32; 2])
    ensures
        (r[0], r[1]) == spec_sorted2(a[0], a[1]),
{
    if a[0] <= a[1] {
        a
    } else {
        [a[1], a[0]]
    }
}

/// Rotates a triangle's corners so that the smallest index comes
/// first, keeping the winding order.
pub open spec fn spec_rotate3(t: Trig) -> Trig {
    let r1 = if t.0 > t.1 || t.0 > t.2 {
        (t.1, t.2, t.0)
    } else {
        t
    };
    if r1.0 > r1.1 || r1.0 > r1.2 {
        (r1.1, r1.2, r1.0)
    } else {
        r1
    }
}

/// Rotates the corners of a triangle until the smallest index is
/// first, without changing the face's winding order.
pub fn rotate3(a: [u32; 3]) -> (r: [u32; 3])
    ensures
        (r[0], r[1], r[2]) == spec_rotate3((a[0], a[1], a[2])),
{
    let a1 = if a[0] > a[1] || a[0] > a[2] {
        [a[1], a[2], a[0]]
    } else {
        a
    };
    if a1[0] > a1[1] || a1[0] > a1[2] {
        [a1[1], a1[2], a1[0]]
    } else {
        a1
    }
}

/// Whether the unordered pair `{b, c}` is one of the three edges of
/// `t`.
pub open spec fn spec_has_edge(t: Trig, b: u32, c: u32) -> bool {
    spec_sorted2(t.0, t.1) == spec_sorted2(b, c) || spec_sorted2(t.1, t.2) == spec_sorted2(b, c)
        || spec_sorted2(t.2, t.0) == spec_sorted2(b, c)
}

/// Deduplication keeps exactly the elements of the original sequence.
proof fn lemma_dedup_contains<T>(s: Seq<T>, x: T)
    ensures
        spec_dedup(s).contains(x) == s.contains(x),
    decreases s.len(),
{
    if s.len() > 0 {
        lemma_dedup_contains(s.drop_last(), x);
        assert(s.contains(x) == (s.drop_last().contains(x) || s.last() == x)) by {
            if s.contains(x) {
                let i = choose|i: int| 0 <= i < s.len() && s[i] == x;
                if i < s.len() - 1 {
                    assert(s.drop_last()[i] == x);
                }
            }
            if s.drop_last().contains(x) {
                let i = choose|i: int| 0 <= i < s.drop_last().len() && s.drop_last()[i] == x;
                assert(s[i] == x);
            }
        }
        if !s.drop_last().contains(s.last()) {
            assert(spec_dedup(s).last() == s.last());
            assert(spec_dedup(s).drop_last() =~= spec_dedup(s.drop_last()));
            assert(spec_dedup(s).contains(x) == (spec_dedup(s.drop_last()).contains(x) || s.last()
                == x)) by {
                let d = spec_dedup(s);
                if d.contains(x) {
                    let i = choose|i: int| 0 <= i < d.len() && d[i] == x;
                    if i < d.len() - 1 {
                        assert(d.drop_last()[i] == x);
                    }
                }
                if d.drop_last().contains(x) {
                    let i = choose|i: int|
                        0 <= i < d.drop_last().len() && d.drop_last()[i] == x;
                    assert(d[i] == x);
                }
            }
        }
    }
}

/// Appending one vertex to a strip adds exactly one window, made of
/// the two previous trailing vertices and the new one.
proof fn lemma_windows3_push(s: Seq<u32>, d: u32)
    requires
        s.len() >= 3,
    ensures
        spec_windows3(s.push(d)) =~= spec_windows3(s).push(
            (s[s.len() - 2], s[s.len() - 1], d),
        ),
{
}

/// Mapping a function over two sequences that hold the same elements
/// (with multiplicity) again gives the same elements with the same
/// multiplicity.
proof fn lemma_map_permutation<A, B>(s: Seq<A>, t: Seq<A>, f: spec_fn(A) -> B)
    requires
        s.to_multiset() == t.to_multiset(),
    ensures
        s.map_values(f).to_multiset() == t.map_values(f).to_multiset(),
    decreases s.len(),
{
    broadcast use vstd::multiset::group_multiset_axioms;

    if s.len() == 0 {
        assert(s.to_multiset().len() == 0);
        assert(t.len() == t.to_multiset().len());
        assert(t.len() == 0);
        assert(s.map_values(f) =~= t.map_values(f));
    } else {
        let x = s.last();
        let s1 = s.drop_last();
        assert(s =~= s1.push(x));
        assert(s.to_multiset() =~= s1.to_multiset().insert(x));
        assert(t.to_multiset().count(x) > 0);
        assert(t.contains(x));
        let i = choose|i: int| 0 <= i < t.len() && t[i] == x;
        let t1 = t.remove(i);
        assert(t1.to_multiset() =~= t.to_multiset().remove(x));
        assert(s1.to_multiset() =~= t1.to_multiset());
        lemma_map_permutation(s1, t1, f);
        assert(s.map_values(f) =~= s1.map_values(f).push(f(x)));
        assert(t1.map_values(f) =~= t.map_values(f).remove(i));
        assert(t.map_values(f)[i] == f(x));
        assert(t.map_values(f).remove(i).to_multiset() =~= t.map_values(f).to_multiset().remove(
            f(x),
        ));
        assert(t.map_values(f).to_multiset().count(f(x)) > 0) by {
            assert(t.map_values(f).contains(f(x)));
        }
        assert(s.map_values(f).to_multiset() =~= t.map_values(f).to_multiset());
    }
}

/// Whether a triangle equal to `t` occurs in `trigs`.
fn trigs_contains(trigs: &Vec<Trig>, t: Trig) -> (b: bool)
    ensures
        b == trigs@.contains(t),
{
    let mut i: usize = 0;
    while i < trigs.len()
        invariant
            i <= trigs@.len(),
            forall|k: int| 0 <= k < i ==> trigs@[k] != t,
        decreases trigs@.len() - i,
    {
        let u = trigs[i];
        if u.0 == t.0 && u.1 == t.1 && u.2 == t.2 {
            return true;
        }
        i += 1;
    }
    false
}

/// Looks for a triangle of `trigs` that has the edge `{b, c}`.  On a
/// hit it returns the triangle's position and the corner opposite the
/// edge, so that the strip window `(b, c, d)` names the found
/// triangle's corners.
fn find_adjacent(trigs: &Vec<Trig>, b: u32, c: u32) -> (r: Option<(usize, u32)>)
    ensures
        match r {
            Some((j, d)) => j < trigs@.len() && spec_has_edge(trigs@[j as int], b, c)
                && spec_sort3(trigs@[j as int]) == spec_sort3((b, c, d)),
            None => forall|j: int| 0 <= j < trigs@.len() ==> !spec_has_edge(trigs@[j], b, c),
        },
{
    let mut i: usize = 0;
    while i < trigs.len()
        invariant
            i <= trigs@.len(),
            forall|k: int| 0 <= k < i ==> !spec_has_edge(trigs@[k], b, c),
        decreases trigs@.len() - i,
    {
        let (x, y, z) = trigs[i];
        let e = sorted([b, c]);
        let e01 = sorted([x, y]);
        if e01[0] == e[0] && e01[1] == e[1] {
            return Some((i, z));
        }
        let e12 = sorted([y, z]);
        if e12[0] == e[0] && e12[1] == e[1] {
            return Some((i, x));
        }
        let e20 = sorted([z, x]);
        if e20[0] == e[0] && e20[1] == e[1] {
            return Some((i, y));
        }
        i += 1;
    }
    None
}

/// The contents of a list of strips, strip by strip.
pub open spec fn spec_views_of(s: Seq<Vec<u32>>) -> Seq<Seq<u32>> {
    s.map_values(|v: Vec<u32>| v@)
}

/// One index buffer that replays a list of strips: consecutive strips
/// are joined by repeating the last vertex of the one and the first
/// vertex of the other, which inserts degenerate triangles between
/// them.
pub open spec fn spec_concat_strips(strips: Seq<Seq<u32>>) -> Seq<u32>
    decreases strips.len(),
{
    if strips.len() == 0 {
        Seq::empty()
    } else {
        let prev = spec_concat_strips(strips.drop_last());
        let s = strips.last();
        if prev.len() == 0 {
            s
        } else {
            prev + seq![prev.last(), s[0]] + s
        }
    }
}

/// Joining empty strips yields an empty buffer.
proof fn lemma_concat_empty_strips(strips: Seq<Seq<u32>>)
    requires
        forall|i: int| 0 <= i < strips.len() ==> (#[trigger] strips[i]).len() == 0,
    ensures
        spec_concat_strips(strips).len() == 0,
    decreases strips.len(),
{
    if strips.len() > 0 {
        assert(forall|i: int|
            0 <= i < strips.len() - 1 ==> (#[trigger] strips.drop_last()[i]).len() == 0);
        lemma_concat_empty_strips(strips.drop_last());
    }
}

/// Joins triangle strips into a single strip-order index buffer,
/// doubling the boundary vertices so that every strip keeps its
/// triangles.  An empty strip is allowed only while nothing has been
/// written yet, that is, behind empty strips alone.
pub fn concat_strips(strips: &[Vec<u32>]) -> (indices: Vec<u32>)
    requires
        forall|i: int, j: int|
            0 <= j < i < strips@.len() && (#[trigger] strips@[i])@.len() == 0 ==> (
            #[trigger] strips@[j])@.len() == 0,
    ensures
        indices@ == spec_concat_strips(spec_views_of(strips@)),
{
    let ghost sv = spec_views_of(strips@);
    let mut indices: Vec<u32> = Vec::new();
    let mut i: usize = 0;
    while i < strips.len()
        invariant
            sv == spec_views_of(strips@),
            forall|k: int, j: int|
                0 <= j < k < strips@.len() && (#[trigger] strips@[k])@.len() == 0 ==> (
                #[trigger] strips@[j])@.len() == 0,
            i <= strips@.len(),
            indices@ == spec_concat_strips(sv.take(i as int)),
        decreases strips@.len() - i,
    {
        let strip = &strips[i];
        proof {
            assert(sv.take(i as int + 1).drop_last() =~= sv.take(i as int));
            assert(sv.take(i as int + 1).last() == strip@);
        }
        let ghost at_entry = indices@;
        if indices.len() > 0 {
            proof {
                // a filled buffer means some earlier strip was not
                // empty, so this one is not either
                assert(strip@.len() >= 1) by {
                    if strip@.len() == 0 {
                        assert(forall|j: int|
                            0 <= j < i ==> (#[trigger] sv.take(i as int)[j]).len() == 0);
                        lemma_concat_empty_strips(sv.take(i as int));
                    }
                }
            }
            // duplicate the last vertex of the previous strip, then
            // the first vertex of the next one
            let last = indices[indices.len() - 1];
            indices.push(last);
            indices.push(strip[0]);
        }
        let ghost with_join = indices@;
        let mut k: usize = 0;
        while k < strip.len()
            invariant
                k <= strip@.len(),
                indices@ == with_join + strip@.take(k as int),
            decreases strip@.len() - k,
        {
            let x = strip[k];
            indices.push(x);
            proof {
                assert(with_join + strip@.take(k as int + 1) =~= (with_join + strip@.take(
                    k as int,
                )).push(x));
            }
            k += 1;
        }
        proof {
            assert(strip@.take(strip@.len() as int) =~= strip@);
            if at_entry.len() == 0 {
                assert(indices@ =~= spec_concat_strips(sv.take(i as int + 1)));
            } else {
                assert(with_join =~= at_entry + seq![at_entry.last(), strip@[0]]);
                assert(indices@ =~= at_entry + seq![at_entry.last(), strip@[0]] + strip@);
            }
        }
        i += 1;
    }
    proof {
        assert(sv.take(strips@.len() as int) =~= sv);
    }
    indices
}

/// An empty sequence holds no elements at all.
proof fn lemma_empty_to_multiset<T>()
    ensures
        Seq::<T>::empty().to_multiset() =~= Multiset::<T>::empty(),
{
    assert forall|x: T| Seq::<T>::empty().to_multiset().count(x) == 0 by {
        assert(!Seq::<T>::empty().contains(x));
    }
}

/// The triangles named by every window of every strip, in strip
/// order.
pub open spec fn spec_all_windows(strips: Seq<Seq<u32>>) -> Seq<Trig>
    decreases strips.len(),
{
    if strips.len() == 0 {
        Seq::empty()
    } else {
        spec_all_windows(strips.drop_last()) + spec_windows3(strips.last())
    }
}

/// How many entries of `v` equal `t`.
fn count_trig(v: &Vec<Trig>, t: Trig) -> (n: usize)
    ensures
        n == v@.to_multiset().count(t),
{
    let mut n: usize = 0;
    let mut i: usize = 0;
    while i < v.len()
        invariant
            i <= v@.len(),
            n == v@.take(i as int).to_multiset().count(t),
            n <= i,
        decreases v@.len() - i,
    {
        let u = v[i];
        proof {
            assert(v@.take(i as int + 1) =~= v@.take(i as int).push(u));
        }
        if u.0 == t.0 && u.1 == t.1 && u.2 == t.2 {
            n += 1;
        }
        i += 1;
    }
    proof {
        assert(v@.take(v@.len() as int) =~= v@);
    }
    n
}

/// Whether two triangle lists hold the same triples, with the same
/// multiplicities, in any order.
fn same_trig_multiset(a: &Vec<Trig>, b: &Vec<Trig>) -> (r: bool)
    ensures
        r == (a@.to_multiset() == b@.to_multiset()),
{
    let mut i: usize = 0;
    while i < a.len()
        invariant
            i <= a@.len(),
            forall|k: int|
                0 <= k < i ==> a@.to_multiset().count(#[trigger] a@[k]) == b@.to_multiset().count(
                    a@[k],
                ),
        decreases a@.len() - i,
    {
        let t = a[i];
        if count_trig(a, t) != count_trig(b, t) {
            proof {
                assert(a@.to_multiset().count(t) != b@.to_multiset().count(t));
            }
            return false;
        }
        i += 1;
    }
    let mut j: usize = 0;
    while j < b.len()
        invariant
            j <= b@.len(),
            forall|k: int|
                0 <= k < a@.len() ==> a@.to_multiset().count(#[trigger] a@[k])
                    == b@.to_multiset().count(a@[k]),
            forall|k: int|
                0 <= k < j ==> a@.to_multiset().count(#[trigger] b@[k]) == b@.to_multiset().count(
                    b@[k],
                ),
        decreases b@.len() - j,
    {
        let t = b[j];
        if count_trig(a, t) != count_trig(b, t) {
            proof {
                assert(a@.to_multiset().count(t) != b@.to_multiset().count(t));
            }
            return false;
        }
        j += 1;
    }
    proof {
        assert forall|x: Trig| a@.to_multiset().count(x) == b@.to_multiset().count(x) by {
            if a@.to_multiset().count(x) > 0 {
                assert(a@.contains(x));
                let k = choose|k: int| 0 <= k < a@.len() && a@[k] == x;
                assert(a@.to_multiset().count(a@[k]) == b@.to_multiset().count(a@[k]));
            } else if b@.to_multiset().count(x) > 0 {
                assert(b@.contains(x));
                let k = choose|k: int| 0 <= k < b@.len() && b@[k] == x;
                assert(a@.to_multiset().count(b@[k]) == b@.to_multiset().count(b@[k]));
            }
        }
        assert(a@.to_multiset() =~= b@.to_multiset());
    }
    true
}

/// Checks that a strip list replays the triangles of an index buffer:
/// the corner triples of the buffer and the strip windows, each
/// rotated to put its smallest corner first, must agree as multisets.
/// Rotation keeps each face's winding, so a strip that walks a face
/// in the opposite direction is reported, as is a lost or invented
/// triangle.
pub fn validate_trig_strips(indices: &[u32], strips: &[Vec<u32>]) -> (r: bool)
    requires
        indices@.len() % 3 == 0,
    ensures
        r == (spec_trigs(indices@).map_values(|t: Trig| spec_rotate3(t)).to_multiset()
            == spec_all_windows(spec_views_of(strips@)).map_values(
            |t: Trig| spec_rotate3(t),
        ).to_multiset()),
{
    let ghost rot_fn = |t: Trig| spec_rotate3(t);
    let ghost all = spec_trigs(indices@);
    let len = indices.len();
    let n = len / 3;
    let mut original_trigs: Vec<Trig> = Vec::new();
    let mut i: usize = 0;
    while i < n
        invariant
            indices@.len() % 3 == 0,
            len == indices@.len(),
            n == indices@.len() / 3,
            all == spec_trigs(indices@),
            rot_fn == (|t: Trig| spec_rotate3(t)),
            i <= n,
            original_trigs@ == all.take(i as int).map_values(rot_fn),
        decreases n - i,
    {
        proof {
            assert(3 * i + 2 < indices@.len());
        }
        let r3 = rotate3([indices[3 * i], indices[3 * i + 1], indices[3 * i + 2]]);
        original_trigs.push((r3[0], r3[1], r3[2]));
        proof {
            assert(all.take(i as int + 1).map_values(rot_fn) =~= all.take(i as int).map_values(
                rot_fn,
            ).push(rot_fn(all[i as int])));
        }
        i += 1;
    }
    proof {
        assert(all.take(n as int) =~= all);
    }

    let ghost sv = spec_views_of(strips@);
    let mut strip_trigs: Vec<Trig> = Vec::new();
    let mut s: usize = 0;
    while s < strips.len()
        invariant
            sv == spec_views_of(strips@),
            rot_fn == (|t: Trig| spec_rotate3(t)),
            s <= strips@.len(),
            strip_trigs@ == spec_all_windows(sv.take(s as int)).map_values(rot_fn),
        decreases strips@.len() - s,
    {
        let strip = &strips[s];
        let ghost at_entry = strip_trigs@;
        let ghost w = spec_windows3(strip@);
        if strip.len() >= 3 {
            let m = strip.len() - 2;
            let mut k: usize = 0;
            while k < m
                invariant
                    m == strip@.len() - 2,
                    m + 2 <= usize::MAX,
                    strip@.len() >= 3,
                    w == spec_windows3(strip@),
                    rot_fn == (|t: Trig| spec_rotate3(t)),
                    k <= m,
                    strip_trigs@ == at_entry + w.take(k as int).map_values(rot_fn),
                decreases m - k,
            {
                let r3 = rotate3([strip[k], strip[k + 1], strip[k + 2]]);
                strip_trigs.push((r3[0], r3[1], r3[2]));
                proof {
                    assert(w.take(k as int + 1).map_values(rot_fn) =~= w.take(k as int).map_values(
                        rot_fn,
                    ).push(rot_fn(w[k as int])));
                    assert(strip_trigs@ =~= at_entry + w.take(k as int + 1).map_values(rot_fn));
                }
                k += 1;
            }
            proof {
                assert(w.take(m as int) =~= w);
            }
        } else {
            proof {
                assert(w.map_values(rot_fn) =~= Seq::<Trig>::empty());
                assert(strip_trigs@ =~= at_entry + w.map_values(rot_fn));
            }
        }
        proof {
            assert(sv.take(s as int + 1).drop_last() =~= sv.take(s as int));
            assert(sv.take(s as int + 1).last() == strip@);
            assert(spec_all_windows(sv.take(s as int + 1)).map_values(rot_fn) =~= spec_all_windows(
                sv.take(s as int),
            ).map_values(rot_fn) + spec_windows3(strip@).map_values(rot_fn));
        }
        s += 1;
    }
    proof {
        assert(sv.take(strips@.len() as int) =~= sv);
    }

    same_trig_multiset(&original_trigs, &strip_trigs)
}

/// Tears an indexed triangle mesh into triangle strips.
///
/// Each returned strip lists at least three vertex indices; its
/// consecutive corner triples are its triangles.  Taken together, the
/// strips spell out exactly the distinct triangles of the input
/// buffer — identical corner triples are drawn once — where triangles
/// count as the same when they use the same corners in any order.
/// Which strips come out, and in what order, is a heuristic detail
/// that callers must not rely on.
pub fn tear_into_strips(indices: &[u32]) -> (strips: Vec<Vec<u32>>)
    requires
        indices@.len() % 3 == 0,
    ensures
        forall|i: int|
            0 <= i < strips.deep_view().len() ==> (#[trigger] strips.deep_view()[i]).len() >= 3,
        spec_strips_keys(strips.deep_view()) == spec_mesh_keys(indices@),
{
    let ghost all = spec_trigs(indices@);
    let mut trigs: Vec<Trig> = Vec::new();
    let len = indices.len();
    let n = len / 3;
    let mut i: usize = 0;
    while i < n
        invariant
            indices@.len() % 3 == 0,
            len == indices@.len(),
            n == indices@.len() / 3,
            all == spec_trigs(indices@),
            i <= n,
            trigs@ == spec_dedup(all.take(i as int)),
        decreases n - i,
    {
        proof {
            assert(3 * i + 2 < indices@.len());
        }
        let t: Trig = (indices[3 * i], indices[3 * i + 1], indices[3 * i + 2]);
        proof {
            assert(all[i as int] == t);
            assert(all.take(i as int + 1).drop_last() =~= all.take(i as int));
            assert(all.take(i as int + 1).last() == t);
            lemma_dedup_contains(all.take(i as int), t);
        }
        if !trigs_contains(&trigs, t) {
            trigs.push(t);
        }
        i += 1;
    }
    proof {
        assert(all.take(n as int) =~= all);
    }
    let ghost dedup0 = spec_dedup(all);
    let ghost sort3_fn = |t: Trig| spec_sort3(t);

    let mut strips: Vec<Vec<u32>> = Vec::new();
    let ghost mut processed: Seq<Trig> = Seq::empty();
    proof {
        lemma_empty_to_multiset::<Trig>();
        assert(trigs@.to_multiset().add(processed.to_multiset()) =~= dedup0.to_multiset());
        assert(strips.deep_view() =~= Seq::<Seq<u32>>::empty());
        assert(processed.map_values(sort3_fn) =~= Seq::<Trig>::empty());
        assert(spec_strips_keys(strips.deep_view()) =~= spec_keys(processed));
    }
    while trigs.len() > 0
        invariant
            dedup0 == spec_dedup(all),
            sort3_fn == (|t: Trig| spec_sort3(t)),
            trigs@.to_multiset().add(processed.to_multiset()) == dedup0.to_multiset(),
            spec_strips_keys(strips.deep_view()) == spec_keys(processed),
            forall|k: int|
                0 <= k < strips.deep_view().len() ==> (#[trigger] strips.deep_view()[k]).len()
                    >= 3,
        decreases trigs@.len(),
    {
        let ghost trigs_at_pop = trigs@;
        let ghost processed_at_pop = processed;
        let t = trigs.pop().unwrap();
        proof {
            assert(trigs_at_pop =~= trigs@.push(t));
            assert(trigs_at_pop.to_multiset() =~= trigs@.to_multiset().insert(t));
            processed = processed_at_pop.push(t);
            assert(processed.to_multiset() =~= processed_at_pop.to_multiset().insert(t));
            assert(trigs@.to_multiset().add(processed.to_multiset()) =~= dedup0.to_multiset());
        }
        let (a, b0, c0) = t;
        let mut strip: Vec<u32> = vec![a, b0, c0];
        let mut b = b0;
        let mut c = c0;

        // Starting against the traversal direction strands a strip at
        // one triangle; if nothing continues past (b, c), flip the
        // start so the open edge faces the remaining triangles.
        let r0 = find_adjacent(&trigs, b, c);
        if r0.is_none() {
            strip = vec![b0, c0, a];
            b = c0;
            c = a;
        }
        proof {
            let w = (strip@[0], strip@[1], strip@[2]);
            assert(spec_windows3(strip@) =~= Seq::<Trig>::empty().push(w));
            assert(spec_sort3(w) == spec_sort3(t));
            assert(spec_windows3(strip@).map_values(sort3_fn) =~= Seq::<Trig>::empty().push(
                spec_sort3(t),
            ));
            lemma_empty_to_multiset::<Trig>();
            assert(spec_strip_keys(strip@) =~= Multiset::<Trig>::empty().insert(spec_sort3(t)));
            assert(processed.map_values(sort3_fn) =~= processed_at_pop.map_values(sort3_fn).push(
                spec_sort3(t),
            ));
            assert(spec_keys(processed) =~= spec_keys(processed_at_pop).insert(spec_sort3(t)));
            assert(spec_strips_keys(strips.deep_view()).add(spec_strip_keys(strip@)) =~= spec_keys(
                processed,
            ));
        }
        loop
            invariant
                dedup0 == spec_dedup(all),
                sort3_fn == (|t: Trig| spec_sort3(t)),
                trigs@.len() < trigs_at_pop.len(),
                strip@.len() >= 3,
                b == strip@[strip@.len() - 2],
                c == strip@[strip@.len() - 1],
                trigs@.to_multiset().add(processed.to_multiset()) == dedup0.to_multiset(),
                spec_strips_keys(strips.deep_view()).add(spec_strip_keys(strip@)) == spec_keys(
                    processed,
                ),
                forall|k: int|
                    0 <= k < strips.deep_view().len() ==> (#[trigger] strips.deep_view()[k]).len()
                        >= 3,
            decreases trigs@.len(),
        {
            let r = find_adjacent(&trigs, b, c);
            match r {
                None => {
                    break ;
                },
                Some((j, d)) => {
                    let ghost trigs_before = trigs@;
                    let ghost processed_before = processed;
                    let t2 = trigs.remove(j);
                    proof {
                        assert(trigs@.to_multiset() =~= trigs_before.to_multiset().remove(t2));
                        assert(trigs_before.to_multiset().count(t2) > 0) by {
                            assert(trigs_before.contains(t2));
                        }
                        processed = processed_before.push(t2);
                        assert(processed.to_multiset() =~= processed_before.to_multiset().insert(
                            t2,
                        ));
                        assert(trigs@.to_multiset().add(processed.to_multiset())
                            =~= dedup0.to_multiset());
                    }
                    let ghost strip_before = strip@;
                    strip.push(d);
                    proof {
                        lemma_windows3_push(strip_before, d);
                        let w = (b, c, d);
                        assert(spec_windows3(strip@).map_values(sort3_fn) =~= spec_windows3(
                            strip_before,
                        ).map_values(sort3_fn).push(spec_sort3(w)));
                        assert(spec_sort3(w) == spec_sort3(t2));
                        assert(spec_strip_keys(strip@) =~= spec_strip_keys(strip_before).insert(
                            spec_sort3(t2),
                        ));
                        assert(processed.map_values(sort3_fn) =~= processed_before.map_values(
                            sort3_fn,
                        ).push(spec_sort3(t2)));
                        assert(spec_keys(processed) =~= spec_keys(processed_before).insert(
                            spec_sort3(t2),
                        ));
                        assert(spec_strips_keys(strips.deep_view()).add(spec_strip_keys(strip@))
                            =~= spec_keys(processed));
                    }
                    b = c;
                    c = d;
                },
            }
        }
        let ghost strips_before = strips.deep_view();
        let ghost strip_final = strip@;
        strips.push(strip);
        proof {
            assert(strips.deep_view() =~~= strips_before.push(strip_final));
            assert(strips.deep_view().drop_last() =~= strips_before);
            assert(strips.deep_view().last() =~= strip_final);
            assert(spec_strips_keys(strips.deep_view()) == spec_strips_keys(strips_before).add(
                spec_strip_keys(strip_final),
            ));
        }
    }
    proof {
        assert(trigs@ =~= Seq::<Trig>::empty());
        lemma_empty_to_multiset::<Trig>();
        assert(processed.to_multiset() =~= dedup0.to_multiset());
        lemma_map_permutation(spec_dedup(all), processed, sort3_fn);
        assert(spec_strips_keys(strips.deep_view()) == spec_mesh_keys(indices@));
    }
    strips
}

} // verus!
