use vstd::prelude::*;
use crate::text::{cat3, join, join_texts, string_views};

verus! {

broadcast use vstd::std_specs::vec::group_vec_axioms;

/// The product of `ds`.
pub open spec fn prod(ds: Seq<usize>) -> nat
    decreases ds.len(),
{
    if ds.len() == 0 {
        1
    } else {
        ds[0] as nat * prod(ds.drop_first())
    }
}

proof fn lemma_prod_push(ds: Seq<usize>, x: usize)
    ensures
        prod(ds.push(x)) == prod(ds) * x,
    decreases ds.len(),
{
    let p = ds.push(x);
    if ds.len() == 0 {
        assert(p.drop_first() =~= Seq::<usize>::empty());
        assert(prod(p.drop_first()) == 1);
        assert(p[0] == x);
        assert(prod(p) == x as nat * 1);
        assert(prod(ds) == 1);
        assert(x as nat * 1 == 1 * (x as nat)) by (nonlinear_arith);
    } else {
        assert(p.drop_first() =~= ds.drop_first().push(x));
        assert(p[0] == ds[0]);
        lemma_prod_push(ds.drop_first(), x);
        let a = ds[0] as nat;
        let b = prod(ds.drop_first());
        assert(prod(p) == a * (b * x));
        assert(prod(ds) == a * b);
        assert(a * (b * x) == (a * b) * x) by (nonlinear_arith);
    }
}

proof fn lemma_prod_skip(ds: Seq<usize>, k: int)
    requires
        0 <= k < ds.len(),
    ensures
        prod(ds.skip(k)) == ds[k] as nat * prod(ds.skip(k + 1)),
{
    assert(ds.skip(k).drop_first() =~= ds.skip(k + 1));
}

/// The product of the lengths; every running product must fit a `usize`.
pub fn product(dims: &[usize]) -> (r: usize)
    requires
        forall|k: int| 0 <= k <= dims@.len() ==> #[trigger] prod(dims@.take(k)) <= usize::MAX,
    ensures
        r == prod(dims@),
{
    let mut acc: usize = 1;
    let mut i: usize = 0;
    proof {
        assert(dims@.take(0) =~= Seq::<usize>::empty());
    }
    while i < dims.len()
        invariant
            i <= dims@.len(),
            forall|k: int| 0 <= k <= dims@.len() ==> #[trigger] prod(dims@.take(k)) <= usize::MAX,
            acc == prod(dims@.take(i as int)),
        decreases dims.len() - i,
    {
        proof {
            assert(dims@.take(i + 1) =~= dims@.take(i as int).push(dims@[i as int]));
            lemma_prod_push(dims@.take(i as int), dims@[i as int]);
            assert(prod(dims@.take(i + 1)) <= usize::MAX);
        }
        acc = acc * dims[i];
        i = i + 1;
    }
    proof {
        assert(dims@.take(dims@.len() as int) =~= dims@);
    }
    acc
}

/// The flat position of `idx` in nested arrays of lengths `ds`: each index
/// times the product of the lengths after its own.
pub open spec fn flat_position(idx: Seq<usize>, ds: Seq<usize>, k: int) -> int
    decreases k,
{
    if k <= 0 {
        0
    } else {
        flat_position(idx, ds, k - 1) + idx[k - 1] * prod(ds.skip(k))
    }
}

/// The indices into nested arrays of lengths `dims` of the element at flat
/// position `index`, outermost first. Every product of trailing lengths must
/// fit a `usize`, every length but the first be positive, and the position
/// lie inside the arrays.
pub fn flat_index_to_indices(index: usize, dims: &[usize]) -> (r: Vec<usize>)
    requires
        forall|j: int| 0 <= j <= dims@.len() ==> #[trigger] prod(dims@.skip(j)) <= usize::MAX,
        forall|j: int| 1 <= j < dims@.len() ==> #[trigger] dims@[j] > 0,
        dims@.len() > 0 ==> index < prod(dims@),
    ensures
        r@.len() == dims@.len(),
        forall|k: int| 0 <= k < dims@.len() ==> #[trigger] r@[k] < dims@[k],
        dims@.len() > 0 ==> flat_position(r@, dims@, dims@.len() as int) == index,
{
    let n = dims.len();
    let ghost ds = dims@;
    let mut strides: Vec<usize> = Vec::new();
    let mut z: usize = 0;
    while z < n
        invariant
            z <= n,
            n == ds.len(),
            strides@.len() == z,
        decreases n - z,
    {
        strides.push(0);
        z = z + 1;
    }
    let mut stride: usize = 1;
    let mut j = n;
    proof {
        assert(ds.skip(n as int) =~= Seq::<usize>::empty());
    }
    while j > 0
        invariant
            j <= n,
            n == ds.len(),
            ds == dims@,
            strides@.len() == n,
            forall|i: int| 0 <= i <= ds.len() ==> #[trigger] prod(ds.skip(i)) <= usize::MAX,
            stride == prod(ds.skip(j as int)),
            forall|k: int| j <= k < n ==> #[trigger] strides@[k] == prod(ds.skip(k + 1)),
        decreases j,
    {
        strides.set(j - 1, stride);
        proof {
            lemma_prod_skip(ds, j - 1);
            assert(prod(ds.skip(j - 1)) <= usize::MAX);
            assert(ds[j - 1] as nat * stride == stride * ds[j - 1] as nat) by (nonlinear_arith);
        }
        stride = stride * dims[j - 1];
        j = j - 1;
    }
    let mut indices: Vec<usize> = Vec::new();
    let mut rem: usize = index;
    proof {
        assert(ds.skip(0) =~= ds);
    }
    let mut k: usize = 0;
    while k < n
        invariant
            k <= n,
            n == ds.len(),
            ds == dims@,
            strides@.len() == n,
            forall|m: int| 0 <= m < n ==> #[trigger] strides@[m] == prod(ds.skip(m + 1)),
            forall|m: int| 1 <= m < ds.len() ==> #[trigger] ds[m] > 0,
            indices@.len() == k,
            forall|m: int| 0 <= m < k ==> #[trigger] indices@[m] < ds[m],
            n > 0 ==> rem < prod(ds.skip(k as int)),
            n > 0 ==> flat_position(indices@, ds, k as int) + rem == index,
        decreases n - k,
    {
        let s = strides[k];
        proof {
            lemma_prod_skip(ds, k as int);
            lemma_prod_positive(ds, k + 1);
        }
        let idx = rem / s;
        let next = rem % s;
        proof {
            assert(rem == idx * s + next) by (nonlinear_arith)
                requires idx == rem / s, next == rem % s, s > 0;
            assert(idx < ds[k as int]) by (nonlinear_arith)
                requires idx == rem / s, s > 0, rem < ds[k as int] as nat * s;
            assert(next < s) by (nonlinear_arith)
                requires next == rem % s, s > 0;
        }
        let ghost before = indices@;
        indices.push(idx);
        proof {
            assert forall|m: int| 0 <= m < k implies #[trigger] flat_position(indices@, ds, m) == flat_position(before, ds, m) by {
                lemma_flat_prefix(indices@, before, ds, m);
            }
            lemma_flat_prefix(indices@, before, ds, k as int);
        }
        rem = next;
        k = k + 1;
    }
    indices
}

proof fn lemma_prod_positive(ds: Seq<usize>, j: int)
    requires
        1 <= j <= ds.len(),
        forall|m: int| 1 <= m < ds.len() ==> #[trigger] ds[m] > 0,
    ensures
        prod(ds.skip(j)) > 0,
    decreases ds.len() - j,
{
    if j < ds.len() {
        lemma_prod_positive(ds, j + 1);
        lemma_prod_skip(ds, j);
        assert(ds[j] as nat * prod(ds.skip(j + 1)) > 0) by (nonlinear_arith)
            requires ds[j] > 0, prod(ds.skip(j + 1)) > 0;
    } else {
        assert(ds.skip(j) =~= Seq::<usize>::empty());
    }
}

proof fn lemma_flat_prefix(a: Seq<usize>, b: Seq<usize>, ds: Seq<usize>, m: int)
    requires
        0 <= m <= b.len(),
        b.len() <= a.len(),
        forall|i: int| 0 <= i < b.len() ==> a[i] == b[i],
    ensures
        flat_position(a, ds, m) == flat_position(b, ds, m),
    decreases m,
{
    if m > 0 {
        lemma_flat_prefix(a, b, ds, m - 1);
    }
}

/// The text of a nested array initializer: the values grouped by the
/// lengths `ds`, each group in braces and items separated by `, `; the
/// innermost group holds all values it is given.
pub open spec fn nested_text(vals: Seq<Seq<char>>, ds: Seq<usize>) -> Seq<char>
    decreases ds.len(), if ds.len() > 0 { ds[0] as int + 1 } else { 0 },
{
    if ds.len() <= 1 {
        "{"@ + join_texts(vals, ", "@) + "}"@
    } else {
        "{"@ + join_texts(nested_groups(vals, ds, ds[0] as int), ", "@) + "}"@
    }
}

/// The texts of the first `k` groups: group `i` is the `i`-th run of
/// `prod(ds[1..])` values, nested by the lengths after the first.
pub open spec fn nested_groups(vals: Seq<Seq<char>>, ds: Seq<usize>, k: int) -> Seq<Seq<char>>
    decreases ds.len(), if k > 0 { k } else { 0 },
{
    if k <= 0 || ds.len() <= 1 {
        Seq::empty()
    } else {
        let c = prod(ds.drop_first());
        nested_groups(vals, ds, k - 1).push(nested_text(vals.subrange((k - 1) * c, (k - 1) * c + c), ds.drop_first()))
    }
}

/// The groups fit in `n` values and every product met on the way fits a `usize`.
pub open spec fn nested_fits(n: nat, ds: Seq<usize>) -> bool
    decreases ds.len(),
{
    ds.len() >= 1 && (ds.len() == 1 || {
        let rest = ds.drop_first();
        &&& forall|k: int| 0 <= k <= rest.len() ==> #[trigger] prod(rest.take(k)) <= usize::MAX
        &&& ds[0] as nat * prod(rest) <= n
        &&& nested_fits(prod(rest), rest)
    })
}

fn join_slice(parts: &[String]) -> (s: String)
    ensures
        s@ == join_texts(string_views(parts@), ", "@),
{
    let mut res = String::new();
    let ghost views = string_views(parts@);
    let mut i: usize = 0;
    while i < parts.len()
        invariant
            i <= parts@.len(),
            views == string_views(parts@),
            res@ == join_texts(views.take(i as int), ", "@),
        decreases parts.len() - i,
    {
        proof {
            assert(views.take(i + 1).drop_last() =~= views.take(i as int));
        }
        if i != 0 {
            res.append(", ");
        }
        res.append(parts[i].as_str());
        i = i + 1;
    }
    proof {
        assert(views.take(parts@.len() as int) =~= views);
    }
    res
}

/// The initializer text of nested arrays of lengths `dims` holding `values`
/// in order.
pub fn nested_init_string(values: &[String], dims: &[usize]) -> (r: String)
    requires
        nested_fits(values@.len() as nat, dims@),
    ensures
        r@ == nested_text(string_views(values@), dims@),
    decreases dims@.len(),
{
    if dims.len() == 1 {
        let inner = join_slice(values);
        return cat3("{", inner.as_str(), "}");
    }
    let ghost ds = dims@;
    let ghost vs = string_views(values@);
    let rest = vstd::slice::slice_subrange(dims, 1, dims.len());
    proof {
        assert(rest@ =~= ds.drop_first());
    }
    let child_len = product(rest);
    let n = dims[0];
    let total = values.len();
    let mut parts: Vec<String> = Vec::new();
    let mut idx: usize = 0;
    proof {
        assert(string_views(parts@) =~= Seq::<Seq<char>>::empty());
    }
    while idx < n
        invariant
            idx <= n,
            n == ds[0],
            ds == dims@,
            rest@ == ds.drop_first(),
            child_len == prod(ds.drop_first()),
            n as nat * child_len <= total,
            total == values@.len(),
            nested_fits(child_len as nat, rest@),
            vs == string_views(values@),
            ds.len() > 1,
            string_views(parts@) == nested_groups(vs, ds, idx as int),
        decreases n - idx,
    {
        proof {
            assert(idx * child_len + child_len <= n as nat * child_len) by (nonlinear_arith)
                requires idx < n;
        }
        let start = idx * child_len;
        let end = start + child_len;
        let sub = vstd::slice::slice_subrange(values, start, end);
        proof {
            assert(string_views(sub@) =~= vs.subrange(start as int, end as int));
        }
        let text = nested_init_string(sub, rest);
        let ghost before = string_views(parts@);
        parts.push(text);
        proof {
            assert(string_views(parts@) =~= before.push(text@));
        }
        idx = idx + 1;
    }
    let inner = join(&parts, ", ");

    cat3("{", inner.as_str(), "}")
}

} // verus!
