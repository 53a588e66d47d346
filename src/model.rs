use vstd::prelude::*;
use crate::element::Element;
use crate::hash::Algorithm;
use crate::store::chunks;

verus! {

/// A level with odd width gets its last node duplicated before pairing.
pub open spec fn pad(s: Seq<Seq<u8>>) -> Seq<Seq<u8>> {
    if s.len() % 2 == 1 {
        s.push(s.last())
    } else {
        s
    }
}

/// The level above `s`: each pair of the padded level hashed at level `h`.
pub open spec fn parents<E: Element, A: Algorithm<E>>(s: Seq<Seq<u8>>, h: nat) -> Seq<Seq<u8>> {
    let p = pad(s);
    Seq::new(p.len() / 2, |k: int| A::node_spec(p[2 * k], p[2 * k + 1], h))
}

/// All nodes of the tree whose lowest level is `s` (at level `h`), level by
/// level from the bottom, each level padded to even width except the root.
pub open spec fn tree_from<E: Element, A: Algorithm<E>>(s: Seq<Seq<u8>>, h: nat) -> Seq<Seq<u8>>
    decreases s.len(),
{
    if s.len() <= 1 {
        s
    } else {
        pad(s) + tree_from::<E, A>(parents::<E, A>(s, h), h + 1)
    }
}

/// The root of the tree over leaves `s`.
pub open spec fn root_of<E: Element, A: Algorithm<E>>(s: Seq<Seq<u8>>) -> Seq<u8> {
    tree_from::<E, A>(s, 0).last()
}

/// Number of nodes stored for a level of width `n` and all levels above it.
pub open spec fn tree_len(n: nat) -> nat
    decreases n,
{
    if n <= 1 {
        n
    } else {
        n + n % 2 + tree_len(((n + 1) / 2) as nat)
    }
}

/// Number of levels of a tree whose lowest level has width `n`.
pub open spec fn height_from(n: nat) -> nat
    decreases n,
{
    if n <= 1 {
        1
    } else {
        1 + height_from(((n + 1) / 2) as nat)
    }
}

/// Whether `p` is a power of two.
pub open spec fn is_pow2(p: nat) -> bool
    decreases p,
{
    if p == 1 {
        true
    } else if p < 2 || p % 2 == 1 {
        false
    } else {
        is_pow2((p / 2) as nat)
    }
}

/// The exponent of a power of two.
pub open spec fn log2(p: nat) -> nat
    decreases p,
{
    if p <= 1 {
        0
    } else {
        1 + log2((p / 2) as nat)
    }
}

/// Position of the other child of the pair that holds position `j`.
pub open spec fn sibling(j: nat) -> nat {
    if j % 2 == 0 {
        j + 1
    } else {
        (j - 1) as nat
    }
}

/// Siblings met on the way from position `j` of level `s` (at level `h`) up
/// to the root, from the bottom.
pub open spec fn siblings<E: Element, A: Algorithm<E>>(s: Seq<Seq<u8>>, j: nat, h: nat) -> Seq<
    Seq<u8>,
>
    decreases s.len(),
{
    if s.len() <= 1 {
        Seq::empty()
    } else {
        seq![pad(s)[sibling(j) as int]] + siblings::<E, A>(
            parents::<E, A>(s, h),
            j / 2,
            h + 1,
        )
    }
}

/// For each level on the way from position `j` of a level of width `n` up to
/// the root: whether the node is a left child.
pub open spec fn path_bits(n: nat, j: nat) -> Seq<bool>
    decreases n,
{
    if n <= 1 {
        Seq::empty()
    } else {
        seq![j % 2 == 0] + path_bits(((n + 1) / 2) as nat, j / 2)
    }
}

/// Hashes `x` up through `sibs`, on the side that `path` gives, starting at
/// level `h`.
pub open spec fn fold_up<E: Element, A: Algorithm<E>>(
    x: Seq<u8>,
    sibs: Seq<Seq<u8>>,
    path: Seq<bool>,
    h: nat,
) -> Seq<u8>
    decreases path.len(),
{
    if path.len() == 0 || sibs.len() == 0 {
        x
    } else {
        let up = if path[0] {
            A::node_spec(x, sibs[0], h)
        } else {
            A::node_spec(sibs[0], x, h)
        };
        fold_up::<E, A>(up, sibs.drop_first(), path.drop_first(), h + 1)
    }
}

/// The lemma of the inclusion proof of leaf `j`: the leaf, its siblings from
/// the bottom, and the root.
pub open spec fn proof_lemma<E: Element, A: Algorithm<E>>(s: Seq<Seq<u8>>, j: nat) -> Seq<Seq<u8>> {
    seq![s[j as int]] + siblings::<E, A>(s, j, 0) + seq![root_of::<E, A>(s)]
}

/// Whether a lemma and a path make a valid inclusion proof: the first
/// element hashed up through the middle ones reaches the last.
pub open spec fn proof_valid<E: Element, A: Algorithm<E>>(lemma: Seq<Seq<u8>>, path: Seq<bool>) -> bool {
    &&& lemma.len() >= 2
    &&& path.len() + 2 == lemma.len()
    &&& fold_up::<E, A>(lemma[0], lemma.subrange(1, lemma.len() - 1), path, 0) == lemma.last()
}

/// The level above has half the width, rounded up.
pub proof fn lemma_parents_len<E: Element, A: Algorithm<E>>(s: Seq<Seq<u8>>, h: nat)
    requires
        s.len() >= 1,
    ensures
        parents::<E, A>(s, h).len() == (s.len() + 1) / 2,
        pad(s).len() == s.len() + s.len() % 2,
        s.len() >= 2 ==> parents::<E, A>(s, h).len() < s.len(),
        parents::<E, A>(s, h).len() >= 1,
{
}

/// The node array of a tree has `tree_len` nodes.
pub proof fn lemma_tree_len<E: Element, A: Algorithm<E>>(s: Seq<Seq<u8>>, h: nat)
    ensures
        tree_from::<E, A>(s, h).len() == tree_len(s.len()),
    decreases s.len(),
{
    if s.len() > 1 {
        lemma_parents_len::<E, A>(s, h);
        lemma_tree_len::<E, A>(parents::<E, A>(s, h), h + 1);
    }
}

/// A tree stores at least its lowest level, and a single node alone.
pub proof fn lemma_tree_len_ge(n: nat)
    ensures
        tree_len(n) >= n,
        n >= 1 ==> tree_len(n) >= 1,
        tree_len(n) == 1 <==> n == 1,
    decreases n,
{
    if n > 1 {
        lemma_tree_len_ge(((n + 1) / 2) as nat);
    }
}

/// The last node of a tree of two or more leaves is the last node of the
/// tree over their parents.
pub proof fn lemma_root_step<E: Element, A: Algorithm<E>>(s: Seq<Seq<u8>>, h: nat)
    requires
        s.len() >= 2,
    ensures
        tree_from::<E, A>(s, h).last() == tree_from::<E, A>(parents::<E, A>(s, h), h + 1).last(),
{
    lemma_parents_len::<E, A>(s, h);
    let up = parents::<E, A>(s, h);
    lemma_tree_len::<E, A>(up, h + 1);
    lemma_tree_len_ge(up.len());
}

/// A leaf hashed up through its siblings reaches the root.
pub proof fn lemma_fold_reaches_root<E: Element, A: Algorithm<E>>(s: Seq<Seq<u8>>, j: nat, h: nat)
    requires
        j < s.len(),
    ensures
        fold_up::<E, A>(s[j as int], siblings::<E, A>(s, j, h), path_bits(s.len(), j), h)
            == tree_from::<E, A>(s, h).last(),
    decreases s.len(),
{
    if s.len() > 1 {
        lemma_parents_len::<E, A>(s, h);
        let p = pad(s);
        let up = parents::<E, A>(s, h);
        let sibs = siblings::<E, A>(s, j, h);
        let path = path_bits(s.len(), j);
        assert(sibs.drop_first() =~= siblings::<E, A>(up, j / 2, h + 1));
        assert(path.drop_first() =~= path_bits(up.len(), j / 2));
        assert(p[j as int] == s[j as int]);
        let k = (j / 2) as int;
        if j % 2 == 0 {
            assert(2 * k == j);
        } else {
            assert(2 * k + 1 == j);
        }
        assert(up[k] == A::node_spec(p[2 * k], p[2 * k + 1], h));
        lemma_fold_reaches_root::<E, A>(up, j / 2, h + 1);
        lemma_root_step::<E, A>(s, h);
    }
}

/// Every inclusion proof of the model validates.
pub proof fn lemma_proof_lemma_valid<E: Element, A: Algorithm<E>>(s: Seq<Seq<u8>>, j: nat)
    requires
        j < s.len(),
    ensures
        proof_valid::<E, A>(proof_lemma::<E, A>(s, j), path_bits(s.len(), j)),
{
    let lemma = proof_lemma::<E, A>(s, j);
    lemma_siblings_len::<E, A>(s, j, 0);
    assert(lemma.subrange(1, lemma.len() - 1) =~= siblings::<E, A>(s, j, 0));
    lemma_fold_reaches_root::<E, A>(s, j, 0);
}

/// A proof has one sibling and one path bit per level below the root.
pub proof fn lemma_siblings_len<E: Element, A: Algorithm<E>>(s: Seq<Seq<u8>>, j: nat, h: nat)
    ensures
        siblings::<E, A>(s, j, h).len() == path_bits(s.len(), j).len(),
        siblings::<E, A>(s, j, h).len() + 1 == height_from(s.len()),
    decreases s.len(),
{
    if s.len() > 1 {
        lemma_parents_len::<E, A>(s, h);
        lemma_siblings_len::<E, A>(parents::<E, A>(s, h), j / 2, h + 1);
    }
}

/// A level of width at most `q`, a power of two, stores at most `2q - 1`
/// nodes with all levels above it.
pub proof fn lemma_tree_len_bound(w: nat, q: nat)
    requires
        1 <= w <= q,
        is_pow2(q),
    ensures
        tree_len(w) <= 2 * q - 1,
    decreases w,
{
    if w > 1 {
        assert(q % 2 == 0 && is_pow2((q / 2) as nat));
        lemma_tree_len_bound(((w + 1) / 2) as nat, (q / 2) as nat);
    }
}

/// With `n` leaves and a power of two `q >= n`, the padded leaf level fits
/// in `q` slots and the levels above it in `q - 1`.
pub proof fn lemma_stores_fit(n: nat, q: nat)
    requires
        2 <= n <= q,
        is_pow2(q),
    ensures
        n + n % 2 <= q,
        tree_len(n) <= n + n % 2 + q - 1,
{
    assert(q % 2 == 0 && is_pow2((q / 2) as nat));
    lemma_tree_len_bound(((n + 1) / 2) as nat, (q / 2) as nat);
}

/// A tree over `n` leaves has `log2(q) + 1` levels, where `q` is the
/// power of two with `q / 2 < n <= q`.
pub proof fn lemma_height_log2(n: nat, q: nat)
    requires
        1 <= n <= q,
        q < 2 * n,
        is_pow2(q),
    ensures
        height_from(n) == log2(q) + 1,
    decreases n,
{
    if n > 1 {
        assert(q % 2 == 0 && is_pow2((q / 2) as nat));
        lemma_height_log2(((n + 1) / 2) as nat, (q / 2) as nat);
    } else {
        assert(q == 1);
    }
}

/// A tree has at least one level, and no more levels than leaves.
pub proof fn lemma_height_bounds(n: nat)
    ensures
        height_from(n) >= 1,
        n >= 1 ==> height_from(n) <= n,
    decreases n,
{
    if n > 1 {
        lemma_height_bounds(((n + 1) / 2) as nat);
    }
}

/// The leaf level made from inputs `s`: each hashed by `A::leaf`.
pub open spec fn leaf_hashes<E: Element, A: Algorithm<E>>(s: Seq<E>) -> Seq<Seq<u8>> {
    Seq::new(s.len(), |i: int| A::leaf_spec(s[i].bytes()))
}

/// Whether no level of the tree over `s` (at level `h`) needs its last
/// node duplicated.
pub open spec fn unpadded<E: Element, A: Algorithm<E>>(s: Seq<Seq<u8>>, h: nat) -> bool
    decreases s.len(),
{
    if s.len() <= 1 {
        true
    } else {
        pad(s) == s && unpadded::<E, A>(parents::<E, A>(s, h), h + 1)
    }
}

/// The byte strings of `s` laid end to end.
pub open spec fn concat_bytes(s: Seq<Seq<u8>>) -> Seq<u8>
    decreases s.len(),
{
    if s.len() == 0 {
        Seq::empty()
    } else {
        concat_bytes(s.drop_last()) + s.last()
    }
}

/// A power of two of leaves never needs a duplicated node, at any level.
pub proof fn lemma_pow2_unpadded<E: Element, A: Algorithm<E>>(s: Seq<Seq<u8>>, h: nat)
    requires
        is_pow2(s.len()),
    ensures
        unpadded::<E, A>(s, h),
    decreases s.len(),
{
    if s.len() > 1 {
        assert(s.len() % 2 == 0);
        lemma_parents_len::<E, A>(s, h);
        lemma_pow2_unpadded::<E, A>(parents::<E, A>(s, h), h + 1);
    }
}

/// A tree over a power of two `n` of leaves has `2n - 1` nodes.
pub proof fn lemma_pow2_tree_len(n: nat)
    requires
        is_pow2(n),
    ensures
        tree_len(n) == 2 * n - 1,
    decreases n,
{
    if n > 1 {
        lemma_pow2_tree_len((n / 2) as nat);
    }
}

/// Cutting byte strings of width `w` laid end to end into pieces of `w`
/// bytes gives them back.
pub proof fn lemma_chunks_concat(s: Seq<Seq<u8>>, w: nat)
    requires
        w > 0,
        forall|i: int| 0 <= i < s.len() ==> #[trigger] s[i].len() == w,
    ensures
        concat_bytes(s).len() == s.len() * w,
        chunks(concat_bytes(s), w) == s,
    decreases s.len(),
{
    if s.len() > 0 {
        let init = s.drop_last();
        lemma_chunks_concat(init, w);
        let c = concat_bytes(s);
        let ci = concat_bytes(init);
        assert(c == ci + s.last());
        assert(c.len() == s.len() * w) by (nonlinear_arith)
            requires
                c.len() == ci.len() + w,
                ci.len() == init.len() * w,
                init.len() + 1 == s.len(),
        ;
        assert(c.len() / w == s.len()) by (nonlinear_arith)
            requires
                c.len() == s.len() * w,
                w > 0,
        ;
        assert forall|i: int| 0 <= i < s.len() implies #[trigger] chunks(c, w)[i] == s[i] by {
            assert(i * w + w <= c.len()) by (nonlinear_arith)
                requires
                    0 <= i < s.len(),
                    c.len() == s.len() * w,
            ;
            assert(0 <= i * w) by (nonlinear_arith)
                requires
                    0 <= i,
                    w > 0,
            ;
            if i < init.len() {
                assert(i * w + w <= ci.len()) by (nonlinear_arith)
                    requires
                        0 <= i < init.len(),
                        ci.len() == init.len() * w,
                ;
                assert(chunks(ci, w)[i] == init[i]);
                assert(c.subrange(i * w, i * w + w) =~= ci.subrange(i * w, i * w + w));
            } else {
                assert(i * w == ci.len()) by (nonlinear_arith)
                    requires
                        i == init.len(),
                        ci.len() == init.len() * w,
                ;
                assert(c.subrange(i * w, i * w + w) =~= s.last());
            }
        }
        assert(chunks(c, w) =~= s);
    } else {
        assert(chunks(concat_bytes(s), w) =~= s);
    }
}

/// The level `m` steps above level `s` (which stands at level `h`).
pub open spec fn level_up<E: Element, A: Algorithm<E>>(s: Seq<Seq<u8>>, h: nat, m: nat) -> Seq<Seq<u8>>
    decreases m,
{
    if m == 0 {
        s
    } else {
        level_up::<E, A>(parents::<E, A>(s, h), h + 1, (m - 1) as nat)
    }
}

/// Position in the node array of the first node of the level `m` steps
/// above a level of width `w` that starts at position 0.
pub open spec fn level_base(w: nat, m: nat) -> nat
    decreases m,
{
    if m == 0 {
        0
    } else {
        w + w % 2 + level_base(((w + 1) / 2) as nat, (m - 1) as nat)
    }
}

/// The parents of an even-aligned window of an even-width level are a
/// window of the level above.
pub proof fn lemma_parents_window<E: Element, A: Algorithm<E>>(s: Seq<Seq<u8>>, h: nat, o: int, t: int)
    requires
        s.len() % 2 == 0,
        0 <= o,
        0 < t,
        2 * o + 2 * t <= s.len(),
    ensures
        parents::<E, A>(s.subrange(2 * o, 2 * o + 2 * t), h) == parents::<E, A>(s, h).subrange(o, o + t),
{
    let w = s.subrange(2 * o, 2 * o + 2 * t);
    assert(pad(w) == w);
    assert(pad(s) == s);
    assert(parents::<E, A>(w, h) =~= parents::<E, A>(s, h).subrange(o, o + t));
}

/// Halving a power of two.
pub proof fn lemma_pow2_half(p: nat)
    requires
        is_pow2(p),
        p >= 2,
    ensures
        p % 2 == 0,
        is_pow2((p / 2) as nat),
        log2(p) == 1 + log2((p / 2) as nat),
{
}

/// A power of two `q` no larger than a power of two `p` divides it.
pub proof fn lemma_pow2_divides(q: nat, p: nat)
    requires
        is_pow2(q),
        is_pow2(p),
        q <= p,
    ensures
        p % q == 0,
        is_pow2((p / q) as nat),
        log2(p) == log2(q) + log2((p / q) as nat),
    decreases q,
{
    if q >= 2 {
        lemma_pow2_half(q);
        lemma_pow2_half(p);
        lemma_pow2_divides((q / 2) as nat, (p / 2) as nat);
        let k = ((p / 2) / (q / 2)) as nat;
        assert(p / 2 == k * (q / 2)) by {
            vstd::arithmetic::div_mod::lemma_fundamental_div_mod((p / 2) as int, (q / 2) as int);
        }
        assert(p == k * q) by (nonlinear_arith)
            requires
                p / 2 == k * (q / 2),
                p % 2 == 0,
                q % 2 == 0,
        ;
        assert(p / q == k) by {
            vstd::arithmetic::div_mod::lemma_div_by_multiple(k as int, q as int);
        }
        assert(p % q == 0) by {
            vstd::arithmetic::div_mod::lemma_mod_multiples_basic(k as int, q as int);
        }
    } else {
        assert(q == 1);
    }
}

/// Over a power of two of leaves, the siblings of leaf `i` split into those
/// inside the aligned window of `q` leaves that holds it, and those of the
/// window's root `q` steps up. The path bits split the same way.
pub proof fn lemma_siblings_split<E: Element, A: Algorithm<E>>(
    s: Seq<Seq<u8>>,
    h: nat,
    q: nat,
    a: nat,
    i: nat,
)
    requires
        is_pow2(s.len()),
        is_pow2(q),
        (a + 1) * q <= s.len(),
        a * q <= i < (a + 1) * q,
    ensures
        siblings::<E, A>(s, i, h) == siblings::<E, A>(s.subrange((a * q) as int, ((a + 1) * q) as int), (i - a * q) as nat, h)
            + siblings::<E, A>(level_up::<E, A>(s, h, log2(q)), a, h + log2(q)),
        path_bits(s.len(), i) == path_bits(q, (i - a * q) as nat) + path_bits(
            level_up::<E, A>(s, h, log2(q)).len(),
            a,
        ),
        level_up::<E, A>(s, h, log2(q)).len() == s.len() / q,
    decreases q,
{
    let o = a * q;
    assert((a + 1) * q == o + q) by (nonlinear_arith)
        requires
            o == a * q,
    ;
    let w = s.subrange(o as int, (o + q) as int);
    if q == 1 {
        assert(o == a) by (nonlinear_arith)
            requires
                o == a * q,
                q == 1,
        ;
        assert(w.len() == 1);
        assert(siblings::<E, A>(w, (i - o) as nat, h) =~= Seq::<Seq<u8>>::empty());
        assert(path_bits(1, (i - o) as nat) =~= Seq::<bool>::empty());
        assert(level_up::<E, A>(s, h, 0) == s);
        assert(s.len() / 1 == s.len());
        assert(siblings::<E, A>(s, i, h) =~= Seq::<Seq<u8>>::empty() + siblings::<E, A>(s, i, h));
        assert(path_bits(s.len(), i) =~= Seq::<bool>::empty() + path_bits(s.len(), i));
    } else {
        lemma_pow2_half(q);
        assert(q <= s.len()) by (nonlinear_arith)
            requires
                (a + 1) * q <= s.len(),
        ;
        lemma_pow2_half(s.len());
        let hq = (q / 2) as nat;
        let p = parents::<E, A>(s, h);
        lemma_parents_len::<E, A>(s, h);
        assert(p.len() == s.len() / 2);
        assert(o == 2 * (a * hq)) by (nonlinear_arith)
            requires
                o == a * q,
                q == 2 * hq,
        ;
        assert((a + 1) * hq <= p.len()) by (nonlinear_arith)
            requires
                (a + 1) * q <= s.len(),
                q == 2 * hq,
                p.len() == s.len() / 2,
                s.len() % 2 == 0,
        ;
        assert(a * hq <= i / 2 < (a + 1) * hq) by (nonlinear_arith)
            requires
                o <= i < o + q,
                o == 2 * (a * hq),
                q == 2 * hq,
        ;
        lemma_siblings_split::<E, A>(p, h + 1, hq, a, i / 2);
        lemma_parents_window::<E, A>(s, h, (a * hq) as int, hq as int);
        assert(s.subrange(2 * (a * hq) as int, 2 * (a * hq) as int + 2 * hq as int) == w);
        let pw = p.subrange((a * hq) as int, ((a + 1) * hq) as int);
        assert(parents::<E, A>(w, h) == pw) by {
            assert((a + 1) * hq == a * hq + hq) by (nonlinear_arith);
        }
        lemma_parents_len::<E, A>(w, h);
        assert(((i - o) as nat) / 2 == (i / 2 - a * hq) as nat);
        assert(w.len() == q);
        assert(pad(w) == w);
        assert(pad(s) == s);
        assert(w[sibling((i - o) as nat) as int] == s[sibling(i) as int]);
        assert(siblings::<E, A>(w, (i - o) as nat, h) == seq![w[sibling((i - o) as nat) as int]]
            + siblings::<E, A>(pw, (i / 2 - a * hq) as nat, h + 1));
        assert(siblings::<E, A>(s, i, h) == seq![s[sibling(i) as int]] + siblings::<E, A>(p, i / 2, h + 1));
        assert(log2(q) == 1 + log2(hq));
        assert(level_up::<E, A>(s, h, log2(q)) == level_up::<E, A>(p, h + 1, log2(hq)));
        assert(siblings::<E, A>(s, i, h) =~= siblings::<E, A>(w, (i - o) as nat, h) + siblings::<E, A>(
            level_up::<E, A>(s, h, log2(q)),
            a,
            h + log2(q),
        ));
        assert(((i - o) as nat) % 2 == i % 2);
        assert(path_bits(q, (i - o) as nat) == seq![((i - o) as nat) % 2 == 0] + path_bits(
            hq,
            (i / 2 - a * hq) as nat,
        ));
        assert(path_bits(s.len(), i) =~= path_bits(q, (i - o) as nat) + path_bits(
            level_up::<E, A>(s, h, log2(q)).len(),
            a,
        ));
        assert(p.len() / hq == s.len() / q) by {
            vstd::arithmetic::div_mod::lemma_div_denominator(s.len() as int, 2, hq as int);
            assert(2 * hq == q);
        }
    }
}

/// `2^e`.
pub open spec fn pow2_of(e: nat) -> nat
    decreases e,
{
    if e == 0 {
        1
    } else {
        2 * pow2_of((e - 1) as nat)
    }
}

/// `2^e` is a power of two with exponent `e`.
pub proof fn lemma_pow2_of(e: nat)
    ensures
        is_pow2(pow2_of(e)),
        log2(pow2_of(e)) == e,
        pow2_of(e) >= 1,
    decreases e,
{
    if e > 0 {
        lemma_pow2_of((e - 1) as nat);
        assert(pow2_of(e) / 2 == pow2_of((e - 1) as nat));
    }
}

/// A power of two `n` is `2^(height - 1)`, and smaller exponents give
/// smaller powers.
pub proof fn lemma_pow2_height(n: nat, e: nat)
    requires
        is_pow2(n),
        e + 1 <= height_from(n),
    ensures
        pow2_of((height_from(n) - 1) as nat) == n,
        pow2_of(e) <= n,
        pow2_of(e) >= 1,
    decreases n,
{
    lemma_pow2_of(e);
    if n > 1 {
        lemma_pow2_half(n);
        assert((n + 1) / 2 == n / 2);
        if e > 0 {
            lemma_pow2_height((n / 2) as nat, (e - 1) as nat);
        } else {
            lemma_pow2_height((n / 2) as nat, 0);
        }
    }
}

/// Past the first `level_base(s.len(), m)` nodes, the node array of the
/// tree over `s` is the node array of the tree over the level `m` steps up.
pub proof fn lemma_level_suffix<E: Element, A: Algorithm<E>>(s: Seq<Seq<u8>>, h: nat, m: nat)
    requires
        s.len() >= 1,
        m + 1 <= height_from(s.len()),
    ensures
        level_base(s.len(), m) <= tree_len(s.len()),
        tree_from::<E, A>(s, h).subrange(level_base(s.len(), m) as int, tree_len(s.len()) as int)
            == tree_from::<E, A>(level_up::<E, A>(s, h, m), h + m),
        level_up::<E, A>(s, h, m).len() >= 1,
    decreases m,
{
    lemma_tree_len::<E, A>(s, h);
    if m == 0 {
        assert(tree_from::<E, A>(s, h).subrange(0, tree_len(s.len()) as int) =~= tree_from::<E, A>(s, h));
    } else {
        lemma_parents_len::<E, A>(s, h);
        let p = parents::<E, A>(s, h);
        lemma_level_suffix::<E, A>(p, h + 1, (m - 1) as nat);
        lemma_tree_len::<E, A>(p, h + 1);
        let t = tree_from::<E, A>(s, h);
        assert(t == pad(s) + tree_from::<E, A>(p, h + 1));
        let off = pad(s).len();
        assert(t.subrange(level_base(s.len(), m) as int, tree_len(s.len()) as int) =~= tree_from::<
            E,
            A,
        >(p, h + 1).subrange(level_base(p.len(), (m - 1) as nat) as int, tree_len(p.len()) as int));
    }
}

/// Folding through two runs of siblings is folding through the first, then
/// through the second from where the first ended.
pub proof fn lemma_fold_concat<E: Element, A: Algorithm<E>>(
    x: Seq<u8>,
    s1: Seq<Seq<u8>>,
    p1: Seq<bool>,
    s2: Seq<Seq<u8>>,
    p2: Seq<bool>,
    h: nat,
)
    requires
        s1.len() == p1.len(),
    ensures
        fold_up::<E, A>(x, s1 + s2, p1 + p2, h) == fold_up::<E, A>(
            fold_up::<E, A>(x, s1, p1, h),
            s2,
            p2,
            h + p1.len(),
        ),
    decreases p1.len(),
{
    if p1.len() > 0 {
        let up = if p1[0] {
            A::node_spec(x, s1[0], h)
        } else {
            A::node_spec(s1[0], x, h)
        };
        assert((s1 + s2).drop_first() =~= s1.drop_first() + s2);
        assert((p1 + p2).drop_first() =~= p1.drop_first() + p2);
        lemma_fold_concat::<E, A>(up, s1.drop_first(), p1.drop_first(), s2, p2, h + 1);
    } else {
        assert(s1 + s2 =~= s2);
        assert(p1 + p2 =~= p2);
    }
}

/// Over a power of two of leaves, the root of the tree over an aligned
/// window of `q` leaves is the node `log2(q)` levels up above it.
pub proof fn lemma_window_root<E: Element, A: Algorithm<E>>(s: Seq<Seq<u8>>, h: nat, q: nat, a: nat)
    requires
        is_pow2(s.len()),
        is_pow2(q),
        (a + 1) * q <= s.len(),
    ensures
        a < level_up::<E, A>(s, h, log2(q)).len(),
        tree_from::<E, A>(s.subrange((a * q) as int, (a * q + q) as int), h).last() == level_up::<E, A>(
            s,
            h,
            log2(q),
        )[a as int],
    decreases q,
{
    assert((a + 1) * q == a * q + q) by (nonlinear_arith);
    let w = s.subrange((a * q) as int, (a * q + q) as int);
    if q == 1 {
        assert(a * q == a) by (nonlinear_arith)
            requires
                q == 1,
        ;
        assert(w.len() == 1);
        assert(w[0] == s[a as int]);
    } else {
        lemma_pow2_half(q);
        assert(q <= s.len()) by (nonlinear_arith)
            requires
                (a + 1) * q <= s.len(),
        ;
        lemma_pow2_half(s.len());
        let hq = (q / 2) as nat;
        let p = parents::<E, A>(s, h);
        lemma_parents_len::<E, A>(s, h);
        assert(a * q == 2 * (a * hq)) by (nonlinear_arith)
            requires
                q == 2 * hq,
        ;
        assert((a + 1) * hq <= p.len()) by (nonlinear_arith)
            requires
                (a + 1) * q <= s.len(),
                q == 2 * hq,
                p.len() == s.len() / 2,
                s.len() % 2 == 0,
        ;
        lemma_window_root::<E, A>(p, h + 1, hq, a);
        lemma_parents_window::<E, A>(s, h, (a * hq) as int, hq as int);
        assert(s.subrange(2 * (a * hq) as int, 2 * (a * hq) as int + 2 * hq as int) == w);
        assert((a + 1) * hq == a * hq + hq) by (nonlinear_arith);
        lemma_root_step::<E, A>(w, h);
        assert(log2(q) == 1 + log2(hq));
        assert(level_up::<E, A>(s, h, log2(q)) == level_up::<E, A>(p, h + 1, log2(hq)));
    }
}

} // verus!
