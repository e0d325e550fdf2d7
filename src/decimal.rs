//! Arbitrary-precision decimal numerals held as digit values, most significant first.
use vstd::prelude::*;

verus! {

/// Every element is a decimal digit value.
pub open spec fn digits_ok(s: Seq<u8>) -> bool {
    forall|i: int| 0 <= i < s.len() ==> #[trigger] s[i] < 10
}

/// The number that a digit sequence denotes.
pub open spec fn val(s: Seq<u8>) -> nat
    decreases s.len(),
{
    if s.len() == 0 {
        0
    } else {
        val(s.drop_last()) * 10 + s.last() as nat
    }
}

/// The canonical digits of `n`: no leading zero except for zero itself.
pub open spec fn canon(n: nat) -> Seq<u8>
    decreases n,
{
    if n < 10 {
        seq![n as u8]
    } else {
        canon(n / 10).push((n % 10) as u8)
    }
}

/// A canonical numeral: non-empty, digits only, no leading zero unless it is "0".
pub open spec fn is_canonical(s: Seq<u8>) -> bool {
    &&& s.len() > 0
    &&& digits_ok(s)
    &&& (s.len() > 1 ==> s[0] != 0)
}

pub open spec fn pow10(n: nat) -> nat
    decreases n,
{
    if n == 0 {
        1
    } else {
        10 * pow10((n - 1) as nat)
    }
}

pub proof fn lemma_pow10_pos(n: nat)
    ensures
        pow10(n) >= 1,
    decreases n,
{
    if n > 0 {
        lemma_pow10_pos((n - 1) as nat);
    }
}

/// Value of a concatenation.
pub proof fn lemma_val_concat(a: Seq<u8>, b: Seq<u8>)
    ensures
        val(a + b) == val(a) * pow10(b.len()) + val(b),
    decreases b.len(),
{
    if b.len() == 0 {
        assert(a + b =~= a);
        assert(val(b) == 0);
        assert(pow10(0) == 1);
    } else {
        let ab = a + b;
        assert(ab.drop_last() =~= a + b.drop_last());
        lemma_val_concat(a, b.drop_last());
        let p1 = pow10((b.len() - 1) as nat);
        assert(pow10(b.len()) == 10 * p1);
        assert(ab.last() == b.last());
        assert(val(ab) == val(a + b.drop_last()) * 10 + b.last());
        assert(val(b) == val(b.drop_last()) * 10 + b.last());
        assert((val(a) * p1 + val(b.drop_last())) * 10 + b.last() == val(a) * (10 * p1) + (val(
            b.drop_last(),
        ) * 10 + b.last())) by (nonlinear_arith);
    }
}

pub proof fn lemma_val_bound(s: Seq<u8>)
    requires
        digits_ok(s),
    ensures
        val(s) < pow10(s.len()),
    decreases s.len(),
{
    if s.len() > 0 {
        lemma_val_bound(s.drop_last());
        let p = pow10((s.len() - 1) as nat);
        let v = val(s.drop_last());
        assert(v * 10 + s.last() < p * 10) by (nonlinear_arith)
            requires
                v < p,
                s.last() < 10,
        ;
    }
}

proof fn lemma_val_leading_pos(s: Seq<u8>)
    requires
        s.len() > 0,
        s[0] != 0,
    ensures
        val(s) > 0,
    decreases s.len(),
{
    if s.len() > 1 {
        assert(s.drop_last()[0] == s[0]);
        lemma_val_leading_pos(s.drop_last());
    }
}

/// A canonical numeral is the canonical form of its value.
pub proof fn lemma_canon_of_val(s: Seq<u8>)
    requires
        is_canonical(s),
    ensures
        canon(val(s)) == s,
    decreases s.len(),
{
    if s.len() == 1 {
        assert(s =~= seq![s[0]]);
        lemma_val_single(s[0]);
        assert(canon(val(s)) =~= s);
    } else {
        let pre = s.drop_last();
        assert(pre[0] == s[0]);
        lemma_val_leading_pos(pre);
        lemma_canon_of_val(pre);
        assert(canon(val(s)) =~= s);
    }
}

/// The canonical form of a number is canonical and denotes it.
pub proof fn lemma_canon_props(n: nat)
    ensures
        is_canonical(canon(n)),
        val(canon(n)) == n,
    decreases n,
{
    if n >= 10 {
        lemma_canon_props(n / 10);
        let c = canon(n / 10);
        assert(canon(n).drop_last() =~= c);
        if c.len() == 1 {
            assert(c =~= seq![c[0]]);
            lemma_val_single(c[0]);
        }
        assert(canon(n)[0] == c[0]);
        assert(canon(n).last() == (n % 10) as u8);
        assert(val(canon(n)) == val(c) * 10 + (n % 10));
        assert((n / 10) * 10 + n % 10 == n);
    } else {
        lemma_val_single(n as u8);
    }
}

pub proof fn lemma_val_single(d: u8)
    ensures
        val(seq![d]) == d as nat,
{
    assert(seq![d].drop_last() =~= Seq::<u8>::empty());
    reveal_with_fuel(val, 2);
}

/// The value of a digit sequence with its leading zeros dropped.
proof fn lemma_val_leading_zero(s: Seq<u8>)
    requires
        s.len() > 0,
        s[0] == 0,
    ensures
        val(s) == val(s.drop_first()),
{
    lemma_val_concat(seq![0u8], s.drop_first());
    assert(seq![0u8] + s.drop_first() =~= s);
    lemma_val_single(0u8);
    assert(val(seq![0u8]) * pow10(s.drop_first().len()) == 0);
}

/// Multiply a canonical numeral by a digit in 1..=9.
pub fn mul_small(a: &Vec<u8>, k: u8) -> (r: Vec<u8>)
    requires
        is_canonical(a@),
        1 <= k <= 9,
    ensures
        r@ == canon((k as nat) * val(a@)),
{
    let n = a.len();
    let mut out: Vec<u8> = Vec::new();
    let mut carry: u8 = 0;
    let mut j: usize = 0;
    assert(a@.subrange(0, n as int) =~= a@);
    assert(out@.len() == 0 ==> val(out@) == 0);
    assert(pow10(0) == 1);
    while j < n
        invariant
            j <= n == a@.len(),
            is_canonical(a@),
            1 <= k <= 9,
            carry < 9,
            out@.len() == j,
            digits_ok(out@),
            k * val(a@) == (k * val(a@.subrange(0, n - j)) + carry) * pow10(j as nat) + val(out@),
        decreases n - j,
    {
        let i = n - 1 - j;
        let d = a[i];
        assert(d < 10);
        assert(k * d <= 81) by (nonlinear_arith)
            requires
                k <= 9,
                d < 10,
        ;
        let t: u8 = k * d + carry;
        let nd: u8 = t % 10;
        let nc: u8 = t / 10;
        proof {
            let pre = a@.subrange(0, (n - j) as int);
            let pre2 = a@.subrange(0, i as int);
            assert(pre.drop_last() =~= pre2);
            assert(val(pre) == val(pre2) * 10 + d);
            lemma_val_concat(seq![nd], out@);
            lemma_val_single(nd);
            let p = pow10(j as nat);
            assert(pow10((j + 1) as nat) == 10 * p);
            let vp = val(pre2);
            let vo = val(out@);
            assert(t == nc * 10 + nd);
            assert((k * (vp * 10 + d) + carry) * p + vo == (k * vp + nc) * (10 * p) + (nd * p
                + vo)) by (nonlinear_arith)
                requires
                    t == k * d + carry,
                    t == nc * 10 + nd,
            ;
        }
        let ghost old_out = out@;
        out.insert(0, nd);
        assert(out@ =~= seq![nd] + old_out);
        carry = nc;
        j = j + 1;
    }
    proof {
        assert(j == n);
        assert(a@.subrange(0, 0).len() == 0);
        assert(val(a@.subrange(0, 0)) == 0);
        let z = a@.subrange(0, (n - j) as int);
        assert(z.len() == 0);
        assert(val(z) == 0);
        assert(k * val(z) == 0) by (nonlinear_arith)
            requires
                val(z) == 0,
        ;
        assert(k * val(a@) == carry * pow10(n as nat) + val(out@));
    }
    if carry > 0 {
        proof {
            lemma_val_concat(seq![carry], out@);
            lemma_val_single(carry);
        }
        let ghost old_out = out@;
        out.insert(0, carry);
        proof {
            assert(out@ =~= seq![carry] + old_out);
            assert(k * val(a@) == carry * pow10(n as nat) + val(old_out));
            assert(is_canonical(out@));
            lemma_canon_of_val(out@);
        }
    } else {
        proof {
            assert(out@[0] != 0 || out@.len() == 1) by {
                if n > 1 {
                    lemma_val_leading_pos(a@);
                    // the top digit of the product is non-zero
                    if out@[0] == 0 {
                        {
                            lemma_val_leading_zero(out@);
                            lemma_val_bound(out@.drop_first());
                            lemma_val_bound(a@.drop_first());
                            lemma_val_concat(seq![a@[0]], a@.drop_first());
                            assert(seq![a@[0]] + a@.drop_first() =~= a@);
                            let one = seq![a@[0]];
                            lemma_val_single(a@[0]);
                            let p = pow10((n - 1) as nat);
                            assert(val(a@) >= a@[0] * p) by (nonlinear_arith)
                                requires
                                    val(a@) == val(one) * p + val(a@.drop_first()),
                                    val(one) == a@[0],
                            ;
                            assert(k * val(a@) >= p) by (nonlinear_arith)
                                requires
                                    val(a@) >= a@[0] * p,
                                    a@[0] >= 1,
                                    k >= 1,
                            ;
                            assert(k * val(a@) == val(out@));
                            assert(out@.drop_first().len() == n - 1);
                            assert(false);
                        }
                    }
                }
            }
            assert(is_canonical(out@));
            lemma_canon_of_val(out@);
        }
    }
    out
}


/// Drop leading zeros of a digit sequence, keeping at least one digit.
pub fn strip_leading_zeros(q: &Vec<u8>) -> (r: Vec<u8>)
    requires
        q@.len() > 0,
        digits_ok(q@),
    ensures
        is_canonical(r@),
        val(r@) == val(q@),
{
    let mut z: usize = 0;
    assert(q@.subrange(0, q@.len() as int) =~= q@);
    while z < q.len() - 1 && q[z] == 0
        invariant
            z < q@.len(),
            digits_ok(q@),
            val(q@.subrange(z as int, q@.len() as int)) == val(q@),
        decreases q@.len() - z,
    {
        proof {
            let t = q@.subrange(z as int, q@.len() as int);
            lemma_val_leading_zero(t);
            assert(t.drop_first() =~= q@.subrange(z + 1, q@.len() as int));
        }
        z = z + 1;
    }
    let mut r: Vec<u8> = Vec::new();
    let mut i: usize = z;
    while i < q.len()
        invariant
            z <= i <= q@.len(),
            digits_ok(q@),
            r@ =~= q@.subrange(z as int, i as int),
        decreases q@.len() - i,
    {
        r.push(q[i]);
        i = i + 1;
    }
    r
}

/// Divide a canonical numeral by a digit in 1..=9; `None` when it does not divide exactly.
pub fn div_exact(a: &Vec<u8>, k: u8) -> (r: Option<Vec<u8>>)
    requires
        is_canonical(a@),
        1 <= k <= 9,
    ensures
        match r {
            Some(q) => val(a@) % (k as nat) == 0 && q@ == canon(val(a@) / (k as nat)) && is_canonical(q@),
            None => val(a@) % (k as nat) != 0,
        },
{
    let n = a.len();
    let mut q: Vec<u8> = Vec::new();
    let mut rem: u8 = 0;
    let mut i: usize = 0;
    assert(val(a@.subrange(0, 0)) == 0);
    assert(k * val(q@) == 0) by (nonlinear_arith)
        requires
            val(q@) == 0,
    ;
    while i < n
        invariant
            i <= n == a@.len(),
            is_canonical(a@),
            1 <= k <= 9,
            rem < k,
            q@.len() == i,
            digits_ok(q@),
            val(a@.subrange(0, i as int)) == k * val(q@) + rem,
        decreases n - i,
    {
        let d = a[i];
        let t: u8 = rem * 10 + d;
        let nd: u8 = t / k;
        let nr: u8 = t % k;
        proof {
            assert(a@.subrange(0, i + 1).drop_last() =~= a@.subrange(0, i as int));
            assert(q@.push(nd).drop_last() =~= q@);
            assert(nd < 10) by (nonlinear_arith)
                requires
                    t == rem * 10 + d,
                    rem < k,
                    d < 10,
                    nd == t / k,
                    k >= 1,
            ;
            assert((k * val(q@) + rem) * 10 + d == k * (val(q@) * 10 + nd) + nr) by (nonlinear_arith)
                requires
                    t == rem * 10 + d,
                    nd == t / k,
                    nr == t % k,
                    k >= 1,
            ;
        }
        q.push(nd);
        rem = nr;
        i = i + 1;
    }
    assert(a@.subrange(0, n as int) =~= a@);
    if rem != 0 {
        proof {
            assert(val(a@) % (k as nat) == rem) by (nonlinear_arith)
                requires
                    val(a@) == k * val(q@) + rem,
                    rem < k,
            ;
        }
        None
    } else {
        let r = strip_leading_zeros(&q);
        proof {
            assert(val(a@) % (k as nat) == 0 && val(a@) / (k as nat) == val(r@)) by (nonlinear_arith)
                requires
                    val(a@) == k * val(r@),
                    k >= 1,
            ;
            lemma_canon_of_val(r@);
        }
        Some(r)
    }
}

} // verus!
