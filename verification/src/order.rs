use vstd::prelude::*;
use crate::table::str_eq;

verus! {

/// Lexicographic order of texts by code point. `String`'s `<` compares the
/// UTF-8 bytes, and UTF-8 keeps the order of code points, so the two agree.
pub open spec fn seq_lt(a: Seq<char>, b: Seq<char>) -> bool
    decreases a.len(),
{
    if a.len() == 0 {
        b.len() > 0
    } else if b.len() == 0 {
        false
    } else if a[0] != b[0] {
        (a[0] as int) < (b[0] as int)
    } else {
        seq_lt(a.drop_first(), b.drop_first())
    }
}

pub proof fn lemma_lt_irreflexive(a: Seq<char>)
    ensures
        !seq_lt(a, a),
    decreases a.len(),
{
    if a.len() > 0 {
        lemma_lt_irreflexive(a.drop_first());
    }
}

pub proof fn lemma_lt_transitive(a: Seq<char>, b: Seq<char>, c: Seq<char>)
    requires
        seq_lt(a, b),
        seq_lt(b, c),
    ensures
        seq_lt(a, c),
    decreases a.len(),
{
    if a.len() > 0 && b.len() > 0 && c.len() > 0 {
        if a[0] == b[0] && b[0] == c[0] {
            lemma_lt_transitive(a.drop_first(), b.drop_first(), c.drop_first());
        }
    }
}

pub proof fn lemma_lt_total(a: Seq<char>, b: Seq<char>)
    requires
        a != b,
    ensures
        seq_lt(a, b) || seq_lt(b, a),
    decreases a.len(),
{
    if a.len() > 0 && b.len() > 0 {
        if a[0] == b[0] {
            if a.drop_first() == b.drop_first() {
                assert(a =~= seq![a[0]] + a.drop_first());
                assert(b =~= seq![b[0]] + b.drop_first());
            }
            lemma_lt_total(a.drop_first(), b.drop_first());
        } else {
        }
    } else if a.len() == 0 && b.len() == 0 {
        assert(a =~= b);
    }
}

pub proof fn lemma_lt_asymmetric(a: Seq<char>, b: Seq<char>)
    requires
        seq_lt(a, b),
    ensures
        !seq_lt(b, a),
{
    if seq_lt(b, a) {
        lemma_lt_transitive(a, b, a);
        lemma_lt_irreflexive(a);
    }
}

/// Whether `a` sorts before `b`.
pub fn str_lt(a: &str, b: &str) -> (r: bool)
    ensures
        r == seq_lt(a@, b@),
{
    let n = a.unicode_len();
    let m = b.unicode_len();
    let mut i: usize = 0;
    proof {
        assert(a@.skip(0) =~= a@);
        assert(b@.skip(0) =~= b@);
    }
    while i < n && i < m
        invariant
            n == a@.len(),
            m == b@.len(),
            i <= n,
            i <= m,
            seq_lt(a@, b@) == seq_lt(a@.skip(i as int), b@.skip(i as int)),
        decreases n - i,
    {
        let ca = a.get_char(i);
        let cb = b.get_char(i);
        proof {
            assert(a@.skip(i as int)[0] == ca);
            assert(b@.skip(i as int)[0] == cb);
            assert(a@.skip(i as int).drop_first() =~= a@.skip(i + 1));
            assert(b@.skip(i as int).drop_first() =~= b@.skip(i + 1));
        }
        if ca != cb {
            return ca < cb;
        }
        i = i + 1;
    }
    proof {
        assert(a@.skip(i as int).len() == n - i);
        assert(b@.skip(i as int).len() == m - i);
    }
    i < m && i == n
}

/// The texts of `v` are in strictly ascending order.
pub open spec fn strictly_sorted(v: Seq<Seq<char>>) -> bool {
    forall|i: int, j: int| 0 <= i < j < v.len() ==> seq_lt(#[trigger] v[i], #[trigger] v[j])
}

/// The views of a vector of strings.
pub open spec fn views_of(v: Seq<String>) -> Seq<Seq<char>> {
    Seq::new(v.len(), |i: int| v[i]@)
}

/// Strictly sorted texts hold no text twice.
pub proof fn lemma_sorted_distinct(v: Seq<Seq<char>>, i: int, j: int)
    requires
        strictly_sorted(v),
        0 <= i < v.len(),
        0 <= j < v.len(),
        i != j,
    ensures
        v[i] != v[j],
{
    if i < j {
        assert(seq_lt(v[i], v[j]));
        lemma_lt_irreflexive(v[i]);
    } else {
        assert(seq_lt(v[j], v[i]));
        lemma_lt_irreflexive(v[j]);
    }
}

/// Two strictly sorted sequences holding the same texts are equal.
pub proof fn lemma_sorted_unique(a: Seq<Seq<char>>, b: Seq<Seq<char>>)
    requires
        strictly_sorted(a),
        strictly_sorted(b),
        forall|x: Seq<char>| a.contains(x) <==> b.contains(x),
    ensures
        a == b,
    decreases a.len() + b.len(),
{
    if a.len() == 0 {
        if b.len() > 0 {
            assert(b.contains(b[0]));
        }
        assert(a =~= b);
    } else if b.len() == 0 {
        assert(a.contains(a[0]));
    } else {
        assert(a.contains(a[0]));
        assert(b.contains(b[0]));
        let i = choose|i: int| 0 <= i < a.len() && a[i] == b[0];
        let j = choose|j: int| 0 <= j < b.len() && b[j] == a[0];
        if a[0] != b[0] {
            assert(i > 0 && j > 0);
            assert(seq_lt(a[0], a[i]));
            assert(seq_lt(b[0], b[j]));
            lemma_lt_asymmetric(a[0], b[0]);
        }
        let a1 = a.drop_first();
        let b1 = b.drop_first();
        assert forall|x: Seq<char>| a1.contains(x) <==> b1.contains(x) by {
            if a1.contains(x) {
                let k = choose|k: int| 0 <= k < a1.len() && a1[k] == x;
                assert(seq_lt(a[0], a[k + 1]));
                lemma_lt_irreflexive(a[0]);
                assert(b.contains(x));
                let m = choose|m: int| 0 <= m < b.len() && b[m] == x;
                assert(m != 0);
                assert(b1[m - 1] == x);
            }
            if b1.contains(x) {
                let k = choose|k: int| 0 <= k < b1.len() && b1[k] == x;
                assert(seq_lt(b[0], b[k + 1]));
                lemma_lt_irreflexive(b[0]);
                assert(a.contains(x));
                let m = choose|m: int| 0 <= m < a.len() && a[m] == x;
                assert(m != 0);
                assert(a1[m - 1] == x);
            }
        }
        lemma_sorted_unique(a1, b1);
        assert(a.len() == b.len());
        assert forall|k: int| 0 <= k < a.len() implies a[k] == b[k] by {
            if k > 0 {
                assert(a[k] == a1[k - 1]);
                assert(b[k] == b1[k - 1]);
            }
        }
        assert(a =~= b);
    }
}

/// Adds `name` to the ascending vector `v` in its place, unless it is there.
pub fn insert_sorted(v: &mut Vec<String>, name: String)
    requires
        strictly_sorted(views_of(old(v)@)),
    ensures
        strictly_sorted(views_of(final(v)@)),
        forall|x: Seq<char>| views_of(final(v)@).contains(x) <==> (views_of(old(v)@).contains(x) || x == name@),
{
    let ghost w = views_of(v@);
    let mut p: usize = 0;
    while p < v.len() && str_lt(v[p].as_str(), name.as_str())
        invariant
            p <= v@.len(),
            w == views_of(v@),
            strictly_sorted(w),
            forall|i: int| 0 <= i < p ==> seq_lt(#[trigger] w[i], name@),
        decreases v.len() - p,
    {
        p = p + 1;
    }
    if p < v.len() && str_eq(v[p].as_str(), name.as_str()) {
        proof {
            assert(w[p as int] == name@);
        }
        return;
    }
    proof {
        if p < v@.len() {
            assert(w[p as int] != name@);
            lemma_lt_total(w[p as int], name@);
            assert(seq_lt(name@, w[p as int]));
        }
    }
    let ghost nv = name@;
    v.insert(p, name);
    proof {
        let w2 = views_of(v@);
        assert(w2 =~= w.insert(p as int, nv));
        assert forall|i: int, j: int| 0 <= i < j < w2.len() implies seq_lt(#[trigger] w2[i], #[trigger] w2[j]) by {
            if j < p {
            } else if j == p {
                assert(w2[i] == w[i]);
            } else if i == p {
                assert(w2[j] == w[j - 1]);
                if j - 1 > p {
                    assert(seq_lt(w[p as int], w[j - 1]));
                    lemma_lt_transitive(nv, w[p as int], w[j - 1]);
                }
            } else if i < p {
                assert(w2[i] == w[i]);
                assert(w2[j] == w[j - 1]);
                assert(seq_lt(w[i], w[j - 1]));
            } else {
                assert(w2[i] == w[i - 1]);
                assert(w2[j] == w[j - 1]);
            }
        }
        assert forall|x: Seq<char>| w2.contains(x) <==> (w.contains(x) || x == nv) by {
            if w2.contains(x) {
                let k = choose|k: int| 0 <= k < w2.len() && w2[k] == x;
                if k < p {
                    assert(w[k] == x);
                } else if k > p {
                    assert(w[k - 1] == x);
                }
            }
            if w.contains(x) {
                let k = choose|k: int| 0 <= k < w.len() && w[k] == x;
                if k < p {
                    assert(w2[k] == x);
                } else {
                    assert(w2[k + 1] == x);
                }
            }
            if x == nv {
                assert(w2[p as int] == x);
            }
        }
    }
}

} // verus!
