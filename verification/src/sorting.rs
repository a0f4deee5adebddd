use vstd::prelude::*;

verus! {

/// `a` comes no later than `b` in the order of `str`: character codes compared one by one,
/// a prefix first.
pub open spec fn chars_le(a: Seq<char>, b: Seq<char>) -> bool
    decreases a.len(),
{
    if a.len() == 0 {
        true
    } else if b.len() == 0 {
        false
    } else if a[0] != b[0] {
        (a[0] as int) < (b[0] as int)
    } else {
        chars_le(a.drop_first(), b.drop_first())
    }
}

/// The order is total.
pub proof fn lemma_chars_le_total(a: Seq<char>, b: Seq<char>)
    ensures
        chars_le(a, b) || chars_le(b, a),
    decreases a.len(),
{
    if a.len() > 0 && b.len() > 0 {
        if a[0] == b[0] {
            lemma_chars_le_total(a.drop_first(), b.drop_first());
        } else {
            assert((a[0] as int) != (b[0] as int));
        }
    }
}

/// The order is antisymmetric.
pub proof fn lemma_chars_le_antisymmetric(a: Seq<char>, b: Seq<char>)
    requires
        chars_le(a, b),
        chars_le(b, a),
    ensures
        a == b,
    decreases a.len(),
{
    if a.len() > 0 {
        if a[0] == b[0] {
            lemma_chars_le_antisymmetric(a.drop_first(), b.drop_first());
            assert(a =~= seq![a[0]] + a.drop_first());
            assert(b =~= seq![b[0]] + b.drop_first());
        } else {
            assert((a[0] as int) != (b[0] as int));
        }
    } else {
        assert(b.len() == 0);
        assert(a =~= b);
    }
}

/// The order is transitive.
pub proof fn lemma_chars_le_transitive(a: Seq<char>, b: Seq<char>, c: Seq<char>)
    requires
        chars_le(a, b),
        chars_le(b, c),
    ensures
        chars_le(a, c),
    decreases a.len(),
{
    if a.len() > 0 && b.len() > 0 && c.len() > 0 {
        if a[0] == b[0] && b[0] == c[0] {
            lemma_chars_le_transitive(a.drop_first(), b.drop_first(), c.drop_first());
        } else {
            assert((a[0] as int) != (b[0] as int) || a[0] == b[0]);
            assert((b[0] as int) != (c[0] as int) || b[0] == c[0]);
        }
    }
}

/// `p` lists the positions of `keys` sorted by key, and positions with equal keys keep their
/// order: a stable sort of `keys`.
pub open spec fn is_stable_order(keys: Seq<Seq<char>>, p: Seq<usize>) -> bool {
    &&& p.len() == keys.len()
    &&& forall|i: int| 0 <= i < p.len() ==> p[i] < keys.len()
    &&& forall|i: int, j: int| 0 <= i < j < p.len() ==> p[i] != p[j]
    &&& forall|i: int, j: int|
        0 <= i < j < p.len() ==> chars_le(#[trigger] keys[p[i] as int], #[trigger] keys[p[j] as int])
    &&& forall|i: int, j: int|
        0 <= i < j < p.len() && keys[p[i] as int] == keys[p[j] as int] ==> p[i] < p[j]
}

/// Whether `a` comes no later than `b`, as `chars_le` says.
pub fn chars_le_exec(a: &Vec<char>, b: &Vec<char>) -> (r: bool)
    ensures
        r == chars_le(a@, b@),
{
    let mut i: usize = 0;
    assert(a@.skip(0) =~= a@);
    assert(b@.skip(0) =~= b@);
    while i < a.len() && i < b.len()
        invariant
            i <= a@.len(),
            i <= b@.len(),
            chars_le(a@, b@) == chars_le(a@.skip(i as int), b@.skip(i as int)),
        decreases a@.len() - i,
    {
        if a[i] != b[i] {
            return a[i] < b[i];
        }
        assert(a@.skip(i as int).drop_first() =~= a@.skip(i + 1));
        assert(b@.skip(i as int).drop_first() =~= b@.skip(i + 1));
        i += 1;
    }
    i == a.len()
}

/// The characters of each key.
pub open spec fn key_views(keys: Seq<Vec<char>>) -> Seq<Seq<char>> {
    Seq::new(keys.len(), |i: int| keys[i]@)
}

/// The first position of `p` whose key comes strictly after the key of `j`.
fn insertion_point(keys: &Vec<Vec<char>>, p: &Vec<usize>, j: usize) -> (pos: usize)
    requires
        j < keys@.len(),
        forall|i: int| 0 <= i < p@.len() ==> p@[i] < keys@.len(),
    ensures
        pos <= p@.len(),
        forall|k: int| 0 <= k < pos ==> chars_le(keys@[p@[k] as int]@, keys@[j as int]@),
        pos < p@.len() ==> !chars_le(keys@[p@[pos as int] as int]@, keys@[j as int]@),
{
    let mut pos: usize = 0;
    let mut found = false;
    while pos < p.len() && !found
        invariant
            pos <= p@.len(),
            j < keys@.len(),
            forall|i: int| 0 <= i < p@.len() ==> p@[i] < keys@.len(),
            forall|k: int| 0 <= k < pos ==> chars_le(keys@[p@[k] as int]@, keys@[j as int]@),
            found ==> pos < p@.len() && !chars_le(keys@[p@[pos as int] as int]@, keys@[j as int]@),
        decreases p@.len() - pos + (if found { 0int } else { 1int }),
    {
        if chars_le_exec(&keys[p[pos]], &keys[j]) {
            pos += 1;
        } else {
            found = true;
        }
    }
    pos
}

/// The positions of `keys` in stable sorted order, as `is_stable_order` says.
pub fn stable_sort_order(keys: &Vec<Vec<char>>) -> (p: Vec<usize>)
    ensures
        is_stable_order(key_views(keys@), p@),
        p@ == stable_order(key_views(keys@)),
{
    let ghost ks = key_views(keys@);
    let mut p: Vec<usize> = Vec::new();
    for j in 0..keys.len()
        invariant
            ks == key_views(keys@),
            p@.len() == j,
            forall|i: int| 0 <= i < p@.len() ==> p@[i] < j,
            forall|a: int, b: int| 0 <= a < b < p@.len() ==> p@[a] != p@[b],
            forall|a: int, b: int|
                0 <= a < b < p@.len() ==> chars_le(#[trigger] ks[p@[a] as int], #[trigger] ks[p@[b] as int]),
            forall|a: int, b: int|
                0 <= a < b < p@.len() && ks[p@[a] as int] == ks[p@[b] as int] ==> p@[a] < p@[b],
    {
        let pos = insertion_point(keys, &p, j);
        let ghost old_p = p@;
        p.insert(pos, j);
        assert(p@ =~= old_p.subrange(0, pos as int).push(j).add(old_p.subrange(pos as int, old_p.len() as int)));
        let ghost kj = ks[j as int];
        assert forall|a: int| 0 <= a < p@.len() implies p@[a] < j + 1 && (a < pos ==> p@[a] == old_p[a]) && (
        a > pos ==> p@[a] == old_p[a - 1]) && (a == pos ==> p@[a] == j) by {}
        assert forall|a: int, b: int| 0 <= a < b < p@.len() implies p@[a] != p@[b] by {}
        assert forall|a: int, b: int| 0 <= a < b < p@.len() implies chars_le(
            #[trigger] ks[p@[a] as int],
            #[trigger] ks[p@[b] as int],
        ) by {
            if b == pos {
                assert(chars_le(keys@[old_p[a] as int]@, keys@[j as int]@));
            } else if a == pos {
                let q = old_p[pos as int];
                assert(!chars_le(ks[q as int], kj));
                lemma_chars_le_total(ks[q as int], kj);
                if b > pos + 1 {
                    lemma_chars_le_transitive(kj, ks[q as int], ks[old_p[b - 1] as int]);
                }
            }
        }
        assert forall|a: int, b: int|
            0 <= a < b < p@.len() && ks[p@[a] as int] == ks[p@[b] as int] implies p@[a] < p@[b] by {
            if a == pos {
                let q = old_p[pos as int];
                if b > pos + 1 {
                    assert(chars_le(ks[q as int], ks[old_p[b - 1] as int]));
                }
                assert(chars_le(ks[q as int], kj));
            }
        }
    }
    proof {
        lemma_stable_order_is(ks, p@);
    }
    p
}

/// A sequence of `n` distinct positions below `n` holds every position below `n`.
pub proof fn lemma_positions_cover(q: Seq<usize>, x: int)
    requires
        forall|i: int| 0 <= i < q.len() ==> q[i] < q.len(),
        forall|i: int, j: int| 0 <= i < j < q.len() ==> q[i] != q[j],
        0 <= x < q.len(),
    ensures
        exists|k: int| 0 <= k < q.len() && q[k] == x,
{
    let qi = q.map_values(|v: usize| v as int);
    assert(qi.no_duplicates()) by {
        assert forall|i: int, j: int| 0 <= i < qi.len() && 0 <= j < qi.len() && i != j implies qi[i]
            != qi[j] by {
            if i < j {
                assert(q[i] != q[j]);
            } else {
                assert(q[j] != q[i]);
            }
        }
    }
    qi.unique_seq_to_set();
    let range = vstd::set_lib::set_int_range(0, q.len() as int);
    vstd::set_lib::lemma_int_range(0, q.len() as int);
    assert(qi.to_set().subset_of(range)) by {
        assert forall|v: int| qi.to_set().contains(v) implies range.contains(v) by {
            let k = choose|k: int| 0 <= k < qi.len() && qi[k] == v;
            assert(q[k] < q.len());
        }
    }
    qi.lemma_cardinality_of_set();
    vstd::set_lib::lemma_subset_equality(qi.to_set(), range);
    assert(range.contains(x));
    assert(qi.to_set().contains(x));
    let k = choose|k: int| 0 <= k < qi.len() && qi[k] == x;
    assert(q[k] == x);
}

/// Two stable sort orders of the same keys that agree before position `i` agree at `i`.
proof fn lemma_stable_order_step(keys: Seq<Seq<char>>, p: Seq<usize>, q: Seq<usize>, i: int)
    requires
        is_stable_order(keys, p),
        is_stable_order(keys, q),
        0 <= i < p.len(),
        forall|j: int| 0 <= j < i ==> p[j] == q[j],
    ensures
        p[i] == q[i],
{
    let x = p[i];
    let y = q[i];
    lemma_positions_cover(q, x as int);
    lemma_positions_cover(p, y as int);
    let k = choose|k: int| 0 <= k < q.len() && q[k] == x;
    let m = choose|m: int| 0 <= m < p.len() && p[m] == y;
    if k < i {
        assert(p[k] == x);
    }
    if m < i {
        assert(q[m] == y);
    }
    if x != y {
        assert(k > i && m > i);
        assert(chars_le(keys[p[i] as int], keys[p[m] as int]));
        assert(chars_le(keys[q[i] as int], keys[q[k] as int]));
        lemma_chars_le_antisymmetric(keys[x as int], keys[y as int]);
        assert(p[i] < p[m]);
        assert(q[i] < q[k]);
    }
}

/// Two stable sort orders of the same keys agree on their first `i` positions.
proof fn lemma_stable_order_prefix(keys: Seq<Seq<char>>, p: Seq<usize>, q: Seq<usize>, i: int)
    requires
        is_stable_order(keys, p),
        is_stable_order(keys, q),
        0 <= i <= p.len(),
    ensures
        forall|j: int| 0 <= j < i ==> p[j] == q[j],
    decreases i,
{
    if i > 0 {
        lemma_stable_order_prefix(keys, p, q, i - 1);
        lemma_stable_order_step(keys, p, q, i - 1);
    }
}

/// A stable sort has one outcome: two stable sort orders of the same keys are equal.
pub proof fn lemma_stable_order_unique(keys: Seq<Seq<char>>, p: Seq<usize>, q: Seq<usize>)
    requires
        is_stable_order(keys, p),
        is_stable_order(keys, q),
    ensures
        p == q,
{
    lemma_stable_order_prefix(keys, p, q, p.len() as int);
    assert(p =~= q);
}

/// The stable sort order of `keys` (there is exactly one).
pub open spec fn stable_order(keys: Seq<Seq<char>>) -> Seq<usize> {
    choose|p: Seq<usize>| is_stable_order(keys, p)
}

/// Any stable sort order of `keys` is `stable_order(keys)`.
pub proof fn lemma_stable_order_is(keys: Seq<Seq<char>>, p: Seq<usize>)
    requires
        is_stable_order(keys, p),
    ensures
        stable_order(keys) == p,
{
    let q = stable_order(keys);
    assert(is_stable_order(keys, q));
    lemma_stable_order_unique(keys, p, q);
}

} // verus!
