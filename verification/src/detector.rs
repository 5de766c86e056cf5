use vstd::prelude::*;

verus! {

/// A connected group of lit pixels of a mask.
#[derive(Debug, Clone, Copy, PartialEq, Eq)]
pub struct Blob {
    /// Number of pixels.
    pub area: usize,
    /// Mean column of the pixels, rounded down.
    pub center_x: u32,
    /// Mean row of the pixels, rounded down.
    pub center_y: u32,
}

/// Pixel `p` of the mask is lit (nonzero).
pub open spec fn lit(m: Seq<u8>, p: int) -> bool {
    0 <= p < m.len() && m[p] > 0
}

/// Column of pixel `p` in a `w`-wide image.
pub open spec fn col(p: int, w: int) -> int {
    p % w
}

/// Row of pixel `p` in a `w`-wide image.
pub open spec fn row(p: int, w: int) -> int {
    p / w
}

/// Pixels `p` and `q` are side by side or one above the other.
pub open spec fn adjacent(p: int, q: int, w: int) -> bool {
    ||| (col(p, w) == col(q, w) && (row(p, w) - row(q, w) == 1 || row(q, w) - row(p, w) == 1))
    ||| (row(p, w) == row(q, w) && (col(p, w) - col(q, w) == 1 || col(q, w) - col(p, w) == 1))
}

/// `path` walks through lit pixels, each adjacent to the next.
pub open spec fn is_path(m: Seq<u8>, w: int, path: Seq<int>) -> bool {
    &&& path.len() >= 1
    &&& forall|i: int| 0 <= i < path.len() ==> lit(m, #[trigger] path[i])
    &&& forall|i: int| 0 <= i < path.len() - 1 ==> adjacent(#[trigger] path[i], path[i + 1], w)
}

/// Lit pixels `p` and `q` are joined by a path through lit pixels.
pub open spec fn connected(m: Seq<u8>, w: int, p: int, q: int) -> bool {
    exists|path: Seq<int>| is_path(m, w, path) && path[0] == p && #[trigger] path.last() == q
}

pub proof fn lemma_connected_refl(m: Seq<u8>, w: int, p: int)
    requires
        lit(m, p),
    ensures
        connected(m, w, p, p),
{
    let path = seq![p];
    assert(is_path(m, w, path) && path[0] == p && path.last() == p);
}

pub proof fn lemma_connected_lit(m: Seq<u8>, w: int, p: int, q: int)
    requires
        connected(m, w, p, q),
    ensures
        lit(m, p),
        lit(m, q),
{
    let path = choose|path: Seq<int>| is_path(m, w, path) && path[0] == p && #[trigger] path.last() == q;
    assert(lit(m, path[0]));
    assert(lit(m, path[path.len() - 1]));
}

pub proof fn lemma_connected_symm(m: Seq<u8>, w: int, p: int, q: int)
    requires
        connected(m, w, p, q),
    ensures
        connected(m, w, q, p),
{
    let path = choose|path: Seq<int>| is_path(m, w, path) && path[0] == p && #[trigger] path.last() == q;
    let rev = path.reverse();
    assert forall|i: int| 0 <= i < rev.len() implies lit(m, #[trigger] rev[i]) by {
        assert(rev[i] == path[path.len() - 1 - i]);
    }
    assert forall|i: int| 0 <= i < rev.len() - 1 implies adjacent(#[trigger] rev[i], rev[i + 1], w) by {
        let j = path.len() - 2 - i;
        assert(rev[i] == path[j + 1] && rev[i + 1] == path[j]);
        assert(adjacent(path[j], path[j + 1], w));
    }
    assert(rev[0] == q && rev.last() == p);
}

/// A path to `q` extends to a lit neighbour `r` of `q`.
pub proof fn lemma_connected_step(m: Seq<u8>, w: int, p: int, q: int, r: int)
    requires
        connected(m, w, p, q),
        lit(m, r),
        adjacent(q, r, w),
    ensures
        connected(m, w, p, r),
{
    let path = choose|path: Seq<int>| is_path(m, w, path) && path[0] == p && #[trigger] path.last() == q;
    let ext = path.push(r);
    assert forall|i: int| 0 <= i < ext.len() implies lit(m, #[trigger] ext[i]) by {
        if i < path.len() {
            assert(ext[i] == path[i]);
        }
    }
    assert forall|i: int| 0 <= i < ext.len() - 1 implies adjacent(#[trigger] ext[i], ext[i + 1], w) by {
        if i < path.len() - 1 {
            assert(ext[i] == path[i] && ext[i + 1] == path[i + 1]);
        } else {
            assert(ext[i] == q && ext[i + 1] == r);
        }
    }
    assert(ext[0] == p && ext.last() == r);
}

pub proof fn lemma_connected_trans(m: Seq<u8>, w: int, p: int, q: int, r: int)
    requires
        connected(m, w, p, q),
        connected(m, w, q, r),
    ensures
        connected(m, w, p, r),
{
    let a = choose|path: Seq<int>| is_path(m, w, path) && path[0] == p && #[trigger] path.last() == q;
    let b = choose|path: Seq<int>| is_path(m, w, path) && path[0] == q && #[trigger] path.last() == r;
    let c = a + b.drop_first();
    assert forall|i: int| 0 <= i < c.len() implies lit(m, #[trigger] c[i]) by {
        if i < a.len() {
            assert(c[i] == a[i]);
        } else {
            assert(c[i] == b[i - a.len() + 1]);
        }
    }
    assert forall|i: int| 0 <= i < c.len() - 1 implies adjacent(#[trigger] c[i], c[i + 1], w) by {
        if i < a.len() - 1 {
            assert(c[i] == a[i] && c[i + 1] == a[i + 1]);
        } else if i == a.len() - 1 {
            assert(c[i] == q && c[i + 1] == b[1]);
            assert(b[0] == q);
            assert(adjacent(b[0], b[1], w));
        } else {
            let j = i - a.len() + 1;
            assert(c[i] == b[j] && c[i + 1] == b[j + 1]);
        }
    }
    if b.len() == 1 {
        assert(c =~= a);
    } else {
        assert(c.last() == b.last());
    }
    assert(c[0] == p);
}

/// Number of lit pixels below `k` that carry no label yet.
pub open spec fn unlabeled(m: Seq<u8>, labels: Seq<usize>, k: int) -> int
    decreases k,
{
    if k <= 0 {
        0
    } else {
        unlabeled(m, labels, k - 1) + if lit(m, k - 1) && labels[k - 1] == 0 {
            1int
        } else {
            0int
        }
    }
}

proof fn lemma_unlabeled_nonneg(m: Seq<u8>, labels: Seq<usize>, k: int)
    ensures
        unlabeled(m, labels, k) >= 0,
    decreases k,
{
    if k > 0 {
        lemma_unlabeled_nonneg(m, labels, k - 1);
    }
}

/// Labelling one unlabelled lit pixel leaves one fewer.
proof fn lemma_unlabeled_update(m: Seq<u8>, labels: Seq<usize>, q: int, l: usize, k: int)
    requires
        0 <= q < labels.len(),
        lit(m, q),
        labels[q] == 0,
        l != 0,
        0 <= k <= labels.len(),
    ensures
        unlabeled(m, labels.update(q, l), k) == unlabeled(m, labels, k) - if q < k {
            1int
        } else {
            0int
        },
    decreases k,
{
    if k > 0 {
        lemma_unlabeled_update(m, labels, q, l, k - 1);
    }
}

/// Coordinates of a pixel given by column and row.
proof fn lemma_coords(x: int, y: int, w: int)
    requires
        0 <= x < w,
        0 <= y,
    ensures
        col(y * w + x, w) == x,
        row(y * w + x, w) == y,
{
    vstd::arithmetic::div_mod::lemma_fundamental_div_mod_converse(y * w + x, w, y, x);
}

/// Every pixel is its row times the width plus its column.
proof fn lemma_split(p: int, w: int)
    requires
        0 <= p,
        0 < w,
    ensures
        p == row(p, w) * w + col(p, w),
        0 <= col(p, w) < w,
        0 <= row(p, w),
{
    vstd::arithmetic::div_mod::lemma_fundamental_div_mod(p, w);
    vstd::arithmetic::mul::lemma_mul_is_commutative(w, p / w);
    vstd::arithmetic::div_mod::lemma_mod_pos_bound(p, w);
    vstd::arithmetic::div_mod::lemma_div_pos_is_pos(p, w);
}

/// The four neighbours of pixel `p` in a `w` by `h` image, and nothing else,
/// are adjacent to it.
proof fn lemma_neighbors(p: int, r: int, w: int, h: int)
    requires
        0 < w,
        0 <= p < w * h,
        0 <= r < w * h,
    ensures
        adjacent(p, r, w) <==> {
            ||| (r == p - 1 && col(p, w) > 0)
            ||| (r == p + 1 && col(p, w) + 1 < w)
            ||| (r == p - w && row(p, w) > 0)
            ||| (r == p + w && row(p, w) + 1 < h)
        },
{
    lemma_split(p, w);
    lemma_split(r, w);
    let px = col(p, w);
    let py = row(p, w);
    assert(py < h) by {
        if py >= h {
            assert(py * w >= h * w) by (nonlinear_arith)
                requires
                    py >= h,
                    w > 0,
            ;
            vstd::arithmetic::mul::lemma_mul_is_commutative(h, w);
        }
    }
    assert(p - 1 == py * w + (px - 1));
    assert(p + 1 == py * w + (px + 1));
    assert(p - w == (py - 1) * w + px) by (nonlinear_arith)
        requires
            p == py * w + px,
    ;
    assert(p + w == (py + 1) * w + px) by (nonlinear_arith)
        requires
            p == py * w + px,
    ;
    if px > 0 {
        lemma_coords(px - 1, py, w);
    }
    if px + 1 < w {
        lemma_coords(px + 1, py, w);
    }
    if py > 0 {
        lemma_coords(px, py - 1, w);
    }
    lemma_coords(px, py + 1, w);
    if adjacent(p, r, w) {
        let rx = col(r, w);
        let ry = row(r, w);
        if rx == px && ry == py + 1 {
            assert(r == (py + 1) * w + px);
            assert(ry < h) by {
                if ry >= h {
                    assert(ry * w >= h * w) by (nonlinear_arith)
                        requires
                            ry >= h,
                            w > 0,
                    ;
                    vstd::arithmetic::mul::lemma_mul_is_commutative(h, w);
                }
            }
        } else if rx == px && ry == py - 1 {
            assert(r == (py - 1) * w + px);
        }
    }
}

/// `q` is one of the four pixels beside or above or below pixel `p`, inside
/// a `w` by `h` image.
pub open spec fn is_neighbor(p: int, q: int, w: int, h: int) -> bool {
    ||| (q == p - 1 && col(p, w) > 0)
    ||| (q == p + 1 && col(p, w) + 1 < w)
    ||| (q == p - w && row(p, w) > 0)
    ||| (q == p + w && row(p, w) + 1 < h)
}

/// Labels `q` with `l` and queues it when it is lit and unlabelled.
fn visit(mask: &[u8], labels: &mut Vec<usize>, stack: &mut Vec<usize>, q: usize, l: usize)
    requires
        q < mask@.len(),
        old(labels)@.len() == mask@.len(),
        l != 0,
    ensures
        final(labels)@.len() == old(labels)@.len(),
        lit(mask@, q as int) && old(labels)@[q as int] == 0 ==> {
            &&& final(labels)@ == old(labels)@.update(q as int, l)
            &&& final(stack)@ == old(stack)@.push(q)
            &&& unlabeled(mask@, final(labels)@, mask@.len() as int) == unlabeled(mask@, old(labels)@, mask@.len() as int) - 1
        },
        !(lit(mask@, q as int) && old(labels)@[q as int] == 0) ==> {
            &&& final(labels)@ == old(labels)@
            &&& final(stack)@ == old(stack)@
        },
{
    if mask[q] > 0 && labels[q] == 0 {
        proof {
            lemma_unlabeled_update(mask@, labels@, q as int, l, mask@.len() as int);
        }
        labels.set(q, l);
        stack.push(q);
    }
}

/// Labels and queues the unlabelled lit neighbours of `p`.
#[verifier::rlimit(60)]
fn visit_neighbors(
    mask: &[u8],
    w: usize,
    h: usize,
    labels: &mut Vec<usize>,
    stack: &mut Vec<usize>,
    p: usize,
    l: usize,
)
    requires
        0 < w,
        mask@.len() == w * h,
        old(labels)@.len() == mask@.len(),
        p < mask@.len(),
        l != 0,
    ensures
        final(labels)@.len() == old(labels)@.len(),
        forall|q: int|
            0 <= q < mask@.len() && #[trigger] final(labels)@[q] != old(labels)@[q] ==> is_neighbor(
                p as int,
                q,
                w as int,
                h as int,
            ) && lit(mask@, q) && old(labels)@[q] == 0 && final(labels)@[q] == l,
        forall|q: int|
            0 <= q < mask@.len() && is_neighbor(p as int, q, w as int, h as int) && lit(mask@, q)
                ==> #[trigger] final(labels)@[q] != 0 || old(labels)@[q] != 0,
        final(stack)@.len() >= old(stack)@.len(),
        final(stack)@.subrange(0, old(stack)@.len() as int) == old(stack)@,
        forall|i: int|
            old(stack)@.len() <= i < final(stack)@.len() ==> #[trigger] final(stack)@[i] < mask@.len()
                && final(labels)@[final(stack)@[i] as int] == l && old(labels)@[final(stack)@[i] as int] == 0,
        unlabeled(mask@, final(labels)@, mask@.len() as int) <= unlabeled(mask@, old(labels)@, mask@.len() as int),
        forall|q: int|
            0 <= q < mask@.len() && #[trigger] final(labels)@[q] != old(labels)@[q] ==> final(stack)@.contains(q as usize),
        final(stack)@.len() - old(stack)@.len() == unlabeled(mask@, old(labels)@, mask@.len() as int) - unlabeled(
            mask@,
            final(labels)@,
            mask@.len() as int,
        ),
{
    let ghost m = mask@;
    let ghost l0 = labels@;
    let ghost s0 = stack@;
    let ghost n = m.len() as int;
    let _len: usize = mask.len();
    let x: usize = p % w;
    let y: usize = p / w;
    proof {
        lemma_split(p as int, w as int);
    }
    if x > 0 {
        visit(mask, labels, stack, p - 1, l);
    }
    let ghost l1 = labels@;
    let ghost s1 = stack@;
    if x + 1 < w {
        assert(p + 1 < n) by (nonlinear_arith)
            requires
                p == y * w + x,
                x + 1 < w,
                p < n,
                n == w * h,
        ;
        visit(mask, labels, stack, p + 1, l);
    }
    let ghost l2 = labels@;
    let ghost s2 = stack@;
    if y > 0 {
        assert(p >= w) by (nonlinear_arith)
            requires
                p == y * w + x,
                y > 0,
                x >= 0,
        ;
        visit(mask, labels, stack, p - w, l);
    }
    let ghost l3 = labels@;
    let ghost s3 = stack@;
    if y + 1 < h {
        assert(p + w < n) by (nonlinear_arith)
            requires
                p == y * w + x,
                x < w,
                y + 1 < h,
                n == w * h,
        ;
        visit(mask, labels, stack, p + w, l);
    }
    proof {
        let l4 = labels@;
        let s4 = stack@;
        assert(s4.subrange(0, s0.len() as int) =~= s0);
        assert forall|q: int|
            0 <= q < n && #[trigger] l4[q] != l0[q] implies is_neighbor(p as int, q, w as int, h as int)
                && lit(m, q) && l0[q] == 0 && l4[q] == l by {
        }
        assert forall|i: int| s0.len() <= i < s4.len() implies #[trigger] s4[i] < n && l4[s4[i] as int]
            == l && l0[s4[i] as int] == 0 by {
        }
        assert forall|q: int| 0 <= q < n && #[trigger] l4[q] != l0[q] implies s4.contains(q as usize) by {
            if l1[q] != l0[q] {
                assert(s1.last() == q as usize);
                assert(s4[s1.len() - 1] == s1[s1.len() - 1]);
            } else if l2[q] != l1[q] {
                assert(s2.last() == q as usize);
                assert(s4[s2.len() - 1] == s2[s2.len() - 1]);
            } else if l3[q] != l2[q] {
                assert(s3.last() == q as usize);
                assert(s4[s3.len() - 1] == s3[s3.len() - 1]);
            } else {
                assert(s4.last() == q as usize);
            }
        }
    }
}

/// Gives label `l` to every lit pixel connected to `seed`, and only to those.
fn flood(mask: &[u8], w: usize, h: usize, labels: &mut Vec<usize>, seed: usize, l: usize)
    requires
        0 < w,
        mask@.len() == w * h,
        old(labels)@.len() == mask@.len(),
        lit(mask@, seed as int),
        old(labels)@[seed as int] == 0,
        l != 0,
        forall|q: int| 0 <= q < mask@.len() ==> #[trigger] old(labels)@[q] != l,
        forall|q: int|
            0 <= q < mask@.len() && #[trigger] old(labels)@[q] != 0 ==> !connected(mask@, w as int, seed as int, q),
    ensures
        final(labels)@.len() == old(labels)@.len(),
        forall|q: int|
            0 <= q < mask@.len() ==> (#[trigger] final(labels)@[q] == l <==> connected(mask@, w as int, seed as int, q)),
        forall|q: int|
            0 <= q < mask@.len() && #[trigger] final(labels)@[q] != l ==> final(labels)@[q] == old(labels)@[q],
{
    let ghost m = mask@;
    let ghost wi = w as int;
    let ghost hi = h as int;
    let ghost old_labels = labels@;
    let n: usize = mask.len();
    proof {
        lemma_connected_refl(m, wi, seed as int);
        lemma_unlabeled_update(m, old_labels, seed as int, l, n as int);
    }
    labels.set(seed, l);
    let mut stack: Vec<usize> = Vec::new();
    stack.push(seed);
    proof {
        lemma_unlabeled_nonneg(m, labels@, n as int);
        assert forall|q: int, r: int|
            0 <= q < n && #[trigger] labels@[q] == l && !stack@.contains(q as usize) && lit(m, r)
                && #[trigger] adjacent(q, r, wi) implies labels@[r] != 0 by {
            if q != seed {
                assert(labels@[q] == old_labels[q]);
            } else {
                assert(stack@[0] == q);
            }
        }
    }
    while stack.len() > 0
        invariant
            n == m.len(),
            m == mask@,
            n == w * h,
            0 < w,
            wi == w,
            hi == h,
            labels@.len() == n,
            old_labels.len() == n,
            l != 0,
            seed < n,
            labels@[seed as int] == l,
            forall|i: int| 0 <= i < stack@.len() ==> #[trigger] stack@[i] < n && labels@[stack@[i] as int] == l,
            forall|q: int| 0 <= q < n && #[trigger] labels@[q] == l ==> connected(m, wi, seed as int, q),
            forall|q: int| 0 <= q < n && #[trigger] labels@[q] != l ==> labels@[q] == old_labels[q],
            forall|q: int| 0 <= q < n ==> #[trigger] old_labels[q] != l,
            forall|q: int|
                0 <= q < n && #[trigger] old_labels[q] != 0 ==> !connected(m, wi, seed as int, q),
            forall|q: int, r: int|
                0 <= q < n && #[trigger] labels@[q] == l && !stack@.contains(q as usize) && lit(m, r)
                    && #[trigger] adjacent(q, r, wi) ==> labels@[r] != 0,
            unlabeled(m, labels@, n as int) >= 0,
        decreases unlabeled(m, labels@, n as int), stack@.len(),
    {
        let ghost l0 = labels@;
        let ghost s0 = stack@;
        let p: usize = stack.pop().unwrap();
        let ghost sp = stack@;
        assert(s0 =~= sp.push(p));
        assert(s0[s0.len() - 1] == p);
        visit_neighbors(mask, w, h, labels, &mut stack, p, l);
        proof {
            let l4 = labels@;
            let s4 = stack@;
            lemma_unlabeled_nonneg(m, l4, n as int);
            assert forall|i: int| 0 <= i < s4.len() implies #[trigger] s4[i] < n && l4[s4[i] as int] == l by {
                if i < sp.len() {
                    assert(s4[i] == s4.subrange(0, sp.len() as int)[i]);
                    assert(s4[i] == sp[i] && sp[i] == s0[i]);
                    if l4[s4[i] as int] != l0[s4[i] as int] {
                    }
                }
            }
            assert forall|q: int| 0 <= q < n && #[trigger] l4[q] == l implies connected(m, wi, seed as int, q) by {
                if l0[q] != l {
                    assert(l4[q] != l0[q]);
                    assert(is_neighbor(p as int, q, wi, hi));
                    lemma_neighbors(p as int, q, wi, hi);
                    assert(l0[p as int] == l);
                    lemma_connected_step(m, wi, seed as int, p as int, q);
                }
            }
            assert forall|q: int| 0 <= q < n && #[trigger] l4[q] != l implies l4[q] == old_labels[q] by {
                if l4[q] != l0[q] {
                    assert(l4[q] == l);
                }
            }
            assert forall|q: int, r: int|
                0 <= q < n && #[trigger] l4[q] == l && !s4.contains(q as usize) && lit(m, r)
                    && #[trigger] adjacent(q, r, wi) implies l4[r] != 0 by {
                if l4[r] == 0 {
                    if l4[r] != l0[r] {
                    }
                    assert(l0[r] == 0);
                    if q == p {
                        lemma_neighbors(p as int, r, wi, hi);
                        assert(is_neighbor(p as int, r, wi, hi));
                    } else {
                        if l4[q] != l0[q] {
                            let k = choose|i: int| 0 <= i < s4.len() && s4[i] == q as usize;
                            assert(false);
                        }
                        assert(l0[q] == l);
                        if s0.contains(q as usize) {
                            let k = choose|i: int| 0 <= i < s0.len() && s0[i] == q as usize;
                            assert(k < sp.len());
                            assert(s4[k] == s4.subrange(0, sp.len() as int)[k]);
                            assert(s4.contains(q as usize));
                        }
                    }
                }
            }
        }
    }
    proof {
        let lf = labels@;
        assert forall|q: int| 0 <= q < n implies (#[trigger] lf[q] == l <==> connected(m, wi, seed as int, q)) by {
            if connected(m, wi, seed as int, q) {
                lemma_reach_labeled(m, wi, lf, old_labels, seed as int, q, l);
            }
        }
    }
}

/// Once the labelled set is closed under adjacency among lit pixels, it holds
/// every pixel connected to the seed.
proof fn lemma_reach_labeled(
    m: Seq<u8>,
    w: int,
    labels: Seq<usize>,
    old_labels: Seq<usize>,
    seed: int,
    q: int,
    l: usize,
)
    requires
        labels.len() == m.len(),
        old_labels.len() == m.len(),
        0 <= seed < m.len(),
        labels[seed] == l,
        l != 0,
        connected(m, w, seed, q),
        forall|x: int| 0 <= x < m.len() && #[trigger] labels[x] != l ==> labels[x] == old_labels[x],
        forall|x: int| 0 <= x < m.len() && #[trigger] old_labels[x] != 0 ==> !connected(m, w, seed, x),
        forall|x: int, r: int|
            0 <= x < m.len() && #[trigger] labels[x] == l && lit(m, r) && #[trigger] adjacent(x, r, w)
                ==> labels[r] != 0,
    ensures
        labels[q] == l,
{
    let path = choose|path: Seq<int>| is_path(m, w, path) && path[0] == seed && #[trigger] path.last() == q;
    lemma_reach_along(m, w, labels, old_labels, seed, path, path.len() - 1, l);
    assert(path[path.len() - 1] == q);
}

proof fn lemma_reach_along(
    m: Seq<u8>,
    w: int,
    labels: Seq<usize>,
    old_labels: Seq<usize>,
    seed: int,
    path: Seq<int>,
    i: int,
    l: usize,
)
    requires
        labels.len() == m.len(),
        old_labels.len() == m.len(),
        0 <= seed < m.len(),
        labels[seed] == l,
        l != 0,
        is_path(m, w, path),
        path[0] == seed,
        0 <= i < path.len(),
        forall|x: int| 0 <= x < m.len() && #[trigger] labels[x] != l ==> labels[x] == old_labels[x],
        forall|x: int| 0 <= x < m.len() && #[trigger] old_labels[x] != 0 ==> !connected(m, w, seed, x),
        forall|x: int, r: int|
            0 <= x < m.len() && #[trigger] labels[x] == l && lit(m, r) && #[trigger] adjacent(x, r, w)
                ==> labels[r] != 0,
    ensures
        labels[path[i]] == l,
        connected(m, w, seed, path[i]),
    decreases i,
{
    if i == 0 {
        lemma_connected_refl(m, w, seed);
    } else {
        lemma_reach_along(m, w, labels, old_labels, seed, path, i - 1, l);
        let a = path[i - 1];
        let b = path[i];
        assert(lit(m, a) && lit(m, b) && adjacent(a, b, w));
        lemma_connected_step(m, w, seed, a, b);
        assert(labels[b] != 0);
        if labels[b] != l {
            assert(old_labels[b] == labels[b]);
        }
    }
}

/// Pixel `p` is lit and comes first (in row-major order) among the pixels
/// connected to it.
pub open spec fn is_seed(m: Seq<u8>, w: int, p: int) -> bool {
    &&& lit(m, p)
    &&& forall|q: int| 0 <= q < p ==> !connected(m, w, q, p)
}

/// The pixels below `k` that come first in their blob, in row-major order.
pub open spec fn seeds_below(m: Seq<u8>, w: int, k: int) -> Seq<int>
    decreases k,
{
    if k <= 0 {
        Seq::empty()
    } else if is_seed(m, w, k - 1) {
        seeds_below(m, w, k - 1).push(k - 1)
    } else {
        seeds_below(m, w, k - 1)
    }
}

/// Number of pixels below `k` connected to `s`.
pub open spec fn blob_area(m: Seq<u8>, w: int, s: int, k: int) -> int
    decreases k,
{
    if k <= 0 {
        0
    } else {
        blob_area(m, w, s, k - 1) + if connected(m, w, s, k - 1) {
            1int
        } else {
            0int
        }
    }
}

/// Sum of the columns of the pixels below `k` connected to `s`.
pub open spec fn blob_sum_x(m: Seq<u8>, w: int, s: int, k: int) -> int
    decreases k,
{
    if k <= 0 {
        0
    } else {
        blob_sum_x(m, w, s, k - 1) + if connected(m, w, s, k - 1) {
            col(k - 1, w)
        } else {
            0int
        }
    }
}

/// Sum of the rows of the pixels below `k` connected to `s`.
pub open spec fn blob_sum_y(m: Seq<u8>, w: int, s: int, k: int) -> int
    decreases k,
{
    if k <= 0 {
        0
    } else {
        blob_sum_y(m, w, s, k - 1) + if connected(m, w, s, k - 1) {
            row(k - 1, w)
        } else {
            0int
        }
    }
}

/// The blob of the pixels connected to `s`: its size and the rounded-down
/// mean of its columns and of its rows.
pub open spec fn blob_of(m: Seq<u8>, w: int, s: int) -> Blob {
    let n = m.len() as int;
    let area = blob_area(m, w, s, n);
    Blob {
        area: area as usize,
        center_x: (blob_sum_x(m, w, s, n) / area) as u32,
        center_y: (blob_sum_y(m, w, s, n) / area) as u32,
    }
}

/// The blobs grown from `seeds`, in order, leaving out those smaller than
/// `min_area`.
pub open spec fn blobs_from(m: Seq<u8>, w: int, min_area: usize, seeds: Seq<int>) -> Seq<Blob>
    decreases seeds.len(),
{
    if seeds.len() == 0 {
        Seq::empty()
    } else {
        let rest = blobs_from(m, w, min_area, seeds.drop_last());
        if blob_area(m, w, seeds.last(), m.len() as int) >= min_area {
            rest.push(blob_of(m, w, seeds.last()))
        } else {
            rest
        }
    }
}

/// The blobs of a mask: its groups of lit pixels joined side by side or one
/// above the other, ordered by their first pixel in row-major order, leaving
/// out those smaller than `min_area`.
pub open spec fn blobs_of(m: Seq<u8>, w: int, min_area: usize) -> Seq<Blob> {
    blobs_from(m, w, min_area, seeds_below(m, w, m.len() as int))
}

proof fn lemma_seeds_below_bounds(m: Seq<u8>, w: int, k: int)
    ensures
        forall|i: int| 0 <= i < seeds_below(m, w, k).len() ==> 0 <= #[trigger] seeds_below(m, w, k)[i] < k,
    decreases k,
{
    if k > 0 {
        lemma_seeds_below_bounds(m, w, k - 1);
        let rest = seeds_below(m, w, k - 1);
        assert forall|i: int| 0 <= i < seeds_below(m, w, k).len() implies 0 <= #[trigger] seeds_below(m, w, k)[i] < k by {
            if i < rest.len() {
                assert(seeds_below(m, w, k)[i] == rest[i]);
            }
        }
    }
}

proof fn lemma_area_positive(m: Seq<u8>, w: int, s: int, k: int)
    requires
        lit(m, s),
        s < k,
    ensures
        blob_area(m, w, s, k) >= 1,
    decreases k,
{
    if k - 1 == s {
        lemma_connected_refl(m, w, s);
        lemma_area_nonneg(m, w, s, k - 1);
    } else {
        lemma_area_positive(m, w, s, k - 1);
    }
}

proof fn lemma_area_nonneg(m: Seq<u8>, w: int, s: int, k: int)
    ensures
        blob_area(m, w, s, k) >= 0,
        blob_area(m, w, s, k) <= if k > 0 { k } else { 0 },
    decreases k,
{
    if k > 0 {
        lemma_area_nonneg(m, w, s, k - 1);
    }
}

/// Finds the blobs of a `width`-wide mask; see `blobs_of`.
pub fn find_blobs(mask: &[u8], width: u32, height: u32, min_area: usize) -> (blobs: Vec<Blob>)
    requires
        0 < width,
        mask@.len() == width * height,
    ensures
        blobs@ == blobs_of(mask@, width as int, min_area),
{
    let ghost m = mask@;
    let ghost wi = width as int;
    let w: usize = width as usize;
    let h: usize = height as usize;
    let n: usize = mask.len();
    let mut labels: Vec<usize> = vec![0usize; n];
    let mut seeds: Vec<usize> = Vec::new();
    let mut p: usize = 0;
    while p < n
        invariant
            n == m.len(),
            m == mask@,
            n == w * h,
            0 < w,
            wi == w,
            0 <= p <= n,
            labels@.len() == n,
            seeds@.len() <= p,
            seeds@.len() == seeds_below(m, wi, p as int).len(),
            forall|j: int| 0 <= j < seeds@.len() ==> #[trigger] seeds@[j] == seeds_below(m, wi, p as int)[j],
            forall|j: int| 0 <= j < seeds@.len() ==> #[trigger] seeds@[j] < p && lit(m, seeds@[j] as int),
            forall|q: int| 0 <= q < n ==> #[trigger] labels@[q] <= seeds@.len(),
            forall|q: int|
                0 <= q < n && #[trigger] labels@[q] != 0 ==> connected(m, wi, seeds@[labels@[q] - 1] as int, q),
            forall|j: int, q: int|
                0 <= j < seeds@.len() && 0 <= q < n && #[trigger] connected(m, wi, seeds@[j] as int, q)
                    ==> #[trigger] labels@[q] == j + 1,
            forall|q: int| 0 <= q < p && lit(m, q) ==> #[trigger] labels@[q] != 0,
        decreases n - p,
    {
        proof {
            lemma_seeds_below_bounds(m, wi, p as int);
        }
        if mask[p] > 0 && labels[p] == 0 {
            let l: usize = seeds.len() + 1;
            proof {
                assert forall|q: int| 0 <= q < p implies !connected(m, wi, q, p as int) by {
                    if connected(m, wi, q, p as int) {
                        lemma_connected_lit(m, wi, q, p as int);
                        let j = labels@[q] - 1;
                        lemma_connected_trans(m, wi, seeds@[j] as int, q, p as int);
                    }
                }
                assert forall|q: int| 0 <= q < n && #[trigger] labels@[q] != 0 implies !connected(m, wi, p as int, q) by {
                    if connected(m, wi, p as int, q) {
                        let j = labels@[q] - 1;
                        lemma_connected_symm(m, wi, p as int, q);
                        lemma_connected_trans(m, wi, seeds@[j] as int, q, p as int);
                    }
                }
            }
            let ghost before = labels@;
            flood(mask, w, h, &mut labels, p, l);
            seeds.push(p);
            proof {
                assert forall|j: int| 0 <= j < seeds@.len() implies #[trigger] seeds@[j] == seeds_below(m, wi, p + 1)[j] by {}
                assert forall|q: int| 0 <= q < n && #[trigger] labels@[q] != 0 implies connected(m, wi, seeds@[labels@[q] - 1] as int, q) by {
                    if labels@[q] != l {
                        assert(labels@[q] == before[q]);
                    }
                }
                assert forall|j: int, q: int|
                    0 <= j < seeds@.len() && 0 <= q < n && #[trigger] connected(m, wi, seeds@[j] as int, q)
                        implies #[trigger] labels@[q] == j + 1 by {
                    if j < seeds@.len() - 1 {
                        assert(before[q] == j + 1);
                        assert(labels@[q] == before[q]);
                    }
                }
                lemma_connected_refl(m, wi, p as int);
            }
        } else {
            proof {
                if is_seed(m, wi, p as int) {
                    let j = labels@[p as int] - 1;
                    lemma_connected_symm(m, wi, seeds@[j] as int, p as int);
                    assert(false);
                }
            }
        }
        p = p + 1;
    }
    let k: usize = seeds.len();
    let ghost all_seeds = seeds_below(m, wi, n as int);
    proof {
        assert forall|j: int, q: int|
            0 <= j < k && 0 <= q < n implies (#[trigger] connected(m, wi, seeds@[j] as int, q)
                <==> #[trigger] labels@[q] == j + 1) by {}
    }
    let mut area: Vec<usize> = vec![0usize; k];
    let mut sum_x: Vec<u128> = vec![0u128; k];
    let mut sum_y: Vec<u128> = vec![0u128; k];
    let mut x: usize = 0;
    let mut y: usize = 0;
    let mut q: usize = 0;
    while q < n
        invariant
            n == m.len(),
            m == mask@,
            n == w * h,
            0 < w,
            w <= u32::MAX,
            h <= u32::MAX,
            wi == w,
            0 <= q <= n,
            q == y * w + x,
            x < w,
            labels@.len() == n,
            seeds@.len() == k,
            area@.len() == k,
            sum_x@.len() == k,
            sum_y@.len() == k,
            forall|r: int| 0 <= r < n ==> #[trigger] labels@[r] <= k,
            forall|j: int, r: int|
                0 <= j < k && 0 <= r < n ==> (#[trigger] connected(m, wi, seeds@[j] as int, r)
                    <==> #[trigger] labels@[r] == j + 1),
            forall|j: int|
                0 <= j < k ==> #[trigger] area@[j] == blob_area(m, wi, seeds@[j] as int, q as int)
                    && sum_x@[j] == blob_sum_x(m, wi, seeds@[j] as int, q as int)
                    && sum_y@[j] == blob_sum_y(m, wi, seeds@[j] as int, q as int),
            forall|j: int|
                0 <= j < k ==> #[trigger] area@[j] <= q && sum_x@[j] <= q * 0x1_0000_0000
                    && sum_y@[j] <= q * 0x1_0000_0000,
        decreases n - q,
    {
        proof {
            lemma_coords(x as int, y as int, wi);
            assert(y < h) by (nonlinear_arith)
                requires
                    q == y * w + x,
                    q < n,
                    n == w * h,
                    0 <= x,
            ;
        }
        let lab: usize = labels[q];
        let ghost a0 = area@;
        let ghost sx0 = sum_x@;
        let ghost sy0 = sum_y@;
        if lab != 0 {
            let i: usize = lab - 1;
            let a: usize = area[i] + 1;
            area.set(i, a);
            let vx: u128 = sum_x[i] + x as u128;
            sum_x.set(i, vx);
            let vy: u128 = sum_y[i] + y as u128;
            sum_y.set(i, vy);
        }
        proof {
            assert(col(q as int, wi) == x && row(q as int, wi) == y);
            assert forall|j: int| 0 <= j < k implies #[trigger] area@[j] == blob_area(
                m,
                wi,
                seeds@[j] as int,
                q + 1,
            ) && sum_x@[j] == blob_sum_x(m, wi, seeds@[j] as int, q + 1) && sum_y@[j]
                == blob_sum_y(m, wi, seeds@[j] as int, q + 1) by {
                let s = seeds@[j] as int;
                assert(connected(m, wi, s, q as int) <==> labels@[q as int] == j + 1);
                assert(blob_area(m, wi, s, q + 1) == blob_area(m, wi, s, q as int) + if connected(m, wi, s, q as int) { 1int } else { 0int });
                assert(blob_sum_x(m, wi, s, q + 1) == blob_sum_x(m, wi, s, q as int) + if connected(m, wi, s, q as int) { col(q as int, wi) } else { 0int });
                assert(blob_sum_y(m, wi, s, q + 1) == blob_sum_y(m, wi, s, q as int) + if connected(m, wi, s, q as int) { row(q as int, wi) } else { 0int });
                if lab == j + 1 {
                    assert(area@[j] == a0[j] + 1);
                } else {
                    assert(area@[j] == a0[j] && sum_x@[j] == sx0[j] && sum_y@[j] == sy0[j]);
                }
            }
            assert((y + 1) * w == y * w + w) by (nonlinear_arith);
            assert(x < 0x1_0000_0000 && y < 0x1_0000_0000);
            assert forall|j: int| 0 <= j < k implies #[trigger] area@[j] <= q + 1 && sum_x@[j] <= (q + 1)
                * 0x1_0000_0000 && sum_y@[j] <= (q + 1) * 0x1_0000_0000 by {
                if lab != j + 1 {
                    assert(area@[j] == a0[j] && sum_x@[j] == sx0[j] && sum_y@[j] == sy0[j]);
                }
            }
        }
        q = q + 1;
        x = x + 1;
        if x == w {
            x = 0;
            y = y + 1;
        }
    }
    let mut blobs: Vec<Blob> = Vec::new();
    let mut j: usize = 0;
    proof {
        lemma_seeds_below_bounds(m, wi, n as int);
    }
    while j < k
        invariant
            n == m.len(),
            seeds@.len() == k,
            k == all_seeds.len(),
            all_seeds == seeds_below(m, wi, n as int),
            forall|i: int| 0 <= i < k ==> #[trigger] seeds@[i] == all_seeds[i],
            forall|i: int| 0 <= i < k ==> #[trigger] seeds@[i] < n && lit(m, seeds@[i] as int),
            area@.len() == k,
            sum_x@.len() == k,
            sum_y@.len() == k,
            forall|i: int|
                0 <= i < k ==> #[trigger] area@[i] == blob_area(m, wi, seeds@[i] as int, n as int)
                    && sum_x@[i] == blob_sum_x(m, wi, seeds@[i] as int, n as int)
                    && sum_y@[i] == blob_sum_y(m, wi, seeds@[i] as int, n as int),
            0 <= j <= k,
            blobs@ == blobs_from(m, wi, min_area, all_seeds.take(j as int)),
        decreases k - j,
    {
        let a: usize = area[j];
        proof {
            assert(all_seeds.take(j + 1).drop_last() =~= all_seeds.take(j as int));
            assert(all_seeds.take(j + 1).last() == seeds@[j as int]);
            lemma_area_positive(m, wi, seeds@[j as int] as int, n as int);
        }
        if a >= min_area {
            let cx: u32 = #[verifier::truncate] ((sum_x[j] / (a as u128)) as u32);
            let cy: u32 = #[verifier::truncate] ((sum_y[j] / (a as u128)) as u32);
            blobs.push(Blob { area: a, center_x: cx, center_y: cy });
        }
        j = j + 1;
    }
    assert(all_seeds.take(k as int) =~= all_seeds);
    blobs
}

/// Every lit pixel belongs to the blob of a seed at or before it.
pub proof fn law_lit_pixel_has_seed(m: Seq<u8>, w: int, p: int)
    requires
        lit(m, p),
    ensures
        exists|s: int| 0 <= s <= p && is_seed(m, w, s) && #[trigger] connected(m, w, s, p),
    decreases p,
{
    if is_seed(m, w, p) {
        lemma_connected_refl(m, w, p);
        assert(connected(m, w, p, p));
    } else {
        let q = choose|q: int| 0 <= q < p && connected(m, w, q, p);
        lemma_connected_lit(m, w, q, p);
        law_lit_pixel_has_seed(m, w, q);
        let s = choose|s: int| 0 <= s <= q && is_seed(m, w, s) && #[trigger] connected(m, w, s, q);
        lemma_connected_trans(m, w, s, q, p);
    }
}

/// No pixel belongs to the blobs of two different seeds: blobs do not overlap.
pub proof fn law_seeds_apart(m: Seq<u8>, w: int, s1: int, s2: int, p: int)
    requires
        is_seed(m, w, s1),
        is_seed(m, w, s2),
        connected(m, w, s1, p),
        connected(m, w, s2, p),
    ensures
        s1 == s2,
{
    lemma_connected_symm(m, w, s2, p);
    lemma_connected_trans(m, w, s1, p, s2);
    lemma_connected_symm(m, w, s1, s2);
    lemma_connected_lit(m, w, s1, s2);
    if s1 < s2 {
        assert(!connected(m, w, s1, s2));
    } else if s2 < s1 {
        assert(!connected(m, w, s2, s1));
    }
}

proof fn lemma_seeds_are_seeds(m: Seq<u8>, w: int, k: int)
    ensures
        forall|i: int|
            0 <= i < seeds_below(m, w, k).len() ==> is_seed(m, w, #[trigger] seeds_below(m, w, k)[i])
                && seeds_below(m, w, k)[i] < k,
    decreases k,
{
    if k > 0 {
        lemma_seeds_are_seeds(m, w, k - 1);
        let rest = seeds_below(m, w, k - 1);
        assert forall|i: int| 0 <= i < seeds_below(m, w, k).len() implies is_seed(
            m,
            w,
            #[trigger] seeds_below(m, w, k)[i],
        ) && seeds_below(m, w, k)[i] < k by {
            if i < rest.len() {
                assert(seeds_below(m, w, k)[i] == rest[i]);
            }
        }
    }
}

proof fn lemma_row_below(p: int, w: int, h: int)
    requires
        0 < w,
        0 <= p < w * h,
    ensures
        0 <= p / w < h,
        0 <= p % w < w,
{
    vstd::arithmetic::div_mod::lemma_fundamental_div_mod(p, w);
    assert(0 <= p / w < h) by (nonlinear_arith)
        requires
            0 < w,
            0 <= p < w * h,
            p == w * (p / w) + p % w,
            0 <= p % w < w,
    ;
}

proof fn lemma_sums_bounded(m: Seq<u8>, w: int, h: int, s: int, k: int)
    requires
        0 < w,
        0 <= k <= w * h,
    ensures
        0 <= blob_sum_x(m, w, s, k) <= (w - 1) * blob_area(m, w, s, k),
        0 <= blob_sum_y(m, w, s, k) <= (h - 1) * blob_area(m, w, s, k),
    decreases k,
{
    if k > 0 {
        lemma_sums_bounded(m, w, h, s, k - 1);
        lemma_row_below(k - 1, w, h);
        let a = blob_area(m, w, s, k - 1);
        assert((w - 1) * (a + 1) == (w - 1) * a + (w - 1) && (h - 1) * (a + 1) == (h - 1) * a + (h
            - 1)) by (nonlinear_arith);
    }
}

proof fn lemma_mean_below(sum: int, area: int, bound: int)
    requires
        0 < area,
        0 <= sum <= (bound - 1) * area,
    ensures
        0 <= sum / area < bound,
{
    assert(0 <= sum / area < bound) by (nonlinear_arith)
        requires
            0 < area,
            0 <= sum <= (bound - 1) * area,
    ;
}

proof fn lemma_blobs_from_inside(m: Seq<u8>, w: int, h: int, min_area: usize, seeds: Seq<int>)
    requires
        0 < w <= u32::MAX,
        0 <= h <= u32::MAX,
        m.len() == w * h,
        m.len() <= usize::MAX,
        forall|i: int| 0 <= i < seeds.len() ==> lit(m, #[trigger] seeds[i]),
    ensures
        forall|i: int|
            0 <= i < blobs_from(m, w, min_area, seeds).len() ==> {
                let b = #[trigger] blobs_from(m, w, min_area, seeds)[i];
                &&& b.area >= min_area
                &&& b.area >= 1
                &&& b.center_x < w
                &&& b.center_y < h
            },
    decreases seeds.len(),
{
    if seeds.len() > 0 {
        let rest = seeds.drop_last();
        assert forall|i: int| 0 <= i < rest.len() implies lit(m, #[trigger] rest[i]) by {
            assert(rest[i] == seeds[i]);
        }
        lemma_blobs_from_inside(m, w, h, min_area, rest);
        let s = seeds.last();
        assert(lit(m, seeds[seeds.len() - 1]));
        let n = m.len() as int;
        lemma_area_positive(m, w, s, n);
        lemma_area_nonneg(m, w, s, n);
        lemma_sums_bounded(m, w, h, s, n);
        let area = blob_area(m, w, s, n);
        lemma_mean_below(blob_sum_x(m, w, s, n), area, w);
        lemma_mean_below(blob_sum_y(m, w, s, n), area, h);
        let prev = blobs_from(m, w, min_area, rest);
        assert forall|i: int| 0 <= i < blobs_from(m, w, min_area, seeds).len() implies {
            let b = #[trigger] blobs_from(m, w, min_area, seeds)[i];
            &&& b.area >= min_area
            &&& b.area >= 1
            &&& b.center_x < w
            &&& b.center_y < h
        } by {
            if i < prev.len() {
                assert(blobs_from(m, w, min_area, seeds)[i] == prev[i]);
            }
        }
    }
}

/// Every blob found has at least `min_area` pixels (and at least one), and its
/// center lies inside the image.
pub proof fn law_blobs_inside(m: Seq<u8>, w: int, h: int, min_area: usize)
    requires
        0 < w <= u32::MAX,
        0 <= h <= u32::MAX,
        m.len() == w * h,
        m.len() <= usize::MAX,
    ensures
        forall|i: int|
            0 <= i < blobs_of(m, w, min_area).len() ==> {
                let b = #[trigger] blobs_of(m, w, min_area)[i];
                &&& b.area >= min_area
                &&& b.area >= 1
                &&& b.center_x < w
                &&& b.center_y < h
            },
{
    let seeds = seeds_below(m, w, m.len() as int);
    lemma_seeds_are_seeds(m, w, m.len() as int);
    assert forall|i: int| 0 <= i < seeds.len() implies lit(m, #[trigger] seeds[i]) by {
        assert(is_seed(m, w, seeds[i]));
    }
    lemma_blobs_from_inside(m, w, h, min_area, seeds);
}

/// Blobs smaller than this many pixels are not taken for the bobber.
pub const BOBBER_MIN_AREA: usize = 10;

/// The first blob of least area, when there is a blob.
pub open spec fn first_smallest(blobs: Seq<Blob>) -> Option<Blob>
    decreases blobs.len(),
{
    if blobs.len() == 0 {
        None
    } else {
        match first_smallest(blobs.drop_last()) {
            None => Some(blobs.last()),
            Some(b) => if blobs.last().area < b.area {
                Some(blobs.last())
            } else {
                Some(b)
            },
        }
    }
}

/// The first blob of least area is a blob of the list, no blob is smaller, and
/// every earlier blob is larger.
pub proof fn law_first_smallest(blobs: Seq<Blob>)
    ensures
        first_smallest(blobs) is None <==> blobs.len() == 0,
        first_smallest(blobs) matches Some(b) ==> exists|i: int|
            0 <= i < blobs.len() && #[trigger] blobs[i] == b && (forall|j: int|
                0 <= j < blobs.len() ==> #[trigger] blobs[j].area >= b.area) && (forall|j: int|
                0 <= j < i ==> #[trigger] blobs[j].area > b.area),
    decreases blobs.len(),
{
    if blobs.len() > 0 {
        let rest = blobs.drop_last();
        law_first_smallest(rest);
        let last = blobs.last();
        let n = blobs.len() - 1;
        match first_smallest(rest) {
            None => {
                assert(blobs[n] == last);
            },
            Some(b) => {
                let i = choose|i: int|
                    0 <= i < rest.len() && #[trigger] rest[i] == b && (forall|j: int|
                        0 <= j < rest.len() ==> #[trigger] rest[j].area >= b.area) && (forall|j: int|
                        0 <= j < i ==> #[trigger] rest[j].area > b.area);
                if last.area < b.area {
                    assert(blobs[n] == last);
                    assert forall|j: int| 0 <= j < blobs.len() implies #[trigger] blobs[j].area >= last.area by {
                        if j < n {
                            assert(blobs[j] == rest[j]);
                        }
                    }
                    assert forall|j: int| 0 <= j < n implies #[trigger] blobs[j].area > last.area by {
                        assert(blobs[j] == rest[j]);
                    }
                } else {
                    assert(blobs[i] == rest[i]);
                    assert forall|j: int| 0 <= j < blobs.len() implies #[trigger] blobs[j].area >= b.area by {
                        if j < n {
                            assert(blobs[j] == rest[j]);
                        }
                    }
                    assert forall|j: int| 0 <= j < i implies #[trigger] blobs[j].area > b.area by {
                        assert(blobs[j] == rest[j]);
                    }
                }
            },
        }
    }
}

/// Locates the fishing bobber in a movement mask.
pub struct Detector {}

impl Detector {
    pub fn new() -> (d: Detector)
        ensures
            d == (Detector {}),
    {
        Detector {}
    }

    /// Center of the smallest blob of at least `BOBBER_MIN_AREA` pixels (the
    /// first such if several are equally small), if any.
    pub fn get_bobber_pos(&self, mask: &[u8], width: u32, height: u32) -> (pos: Option<(u32, u32)>)
        requires
            mask@.len() == width * height,
        ensures
            pos == match first_smallest(blobs_of(mask@, width as int, BOBBER_MIN_AREA)) {
                Some(b) => Some((b.center_x, b.center_y)),
                None => None,
            },
    {
        if width == 0 {
            assert(blobs_of(mask@, width as int, BOBBER_MIN_AREA) =~= Seq::<Blob>::empty());
            return None;
        }
        let blobs: Vec<Blob> = find_blobs(mask, width, height, BOBBER_MIN_AREA);
        let mut best: Option<Blob> = None;
        let mut i: usize = 0;
        while i < blobs.len()
            invariant
                0 <= i <= blobs@.len(),
                best == first_smallest(blobs@.take(i as int)),
            decreases blobs@.len() - i,
        {
            proof {
                assert(blobs@.take(i + 1).drop_last() =~= blobs@.take(i as int));
            }
            let b: Blob = blobs[i];
            best = match best {
                None => Some(b),
                Some(c) => if b.area < c.area {
                    Some(b)
                } else {
                    Some(c)
                },
            };
            i = i + 1;
        }
        assert(blobs@.take(blobs@.len() as int) =~= blobs@);
        match best {
            Some(b) => Some((b.center_x, b.center_y)),
            None => None,
        }
    }

    /// The name of the caught item; this detector never reads one.
    pub fn biting_name(&self) -> (name: Option<String>)
        ensures
            name is None,
    {
        None
    }
}

} // verus!
