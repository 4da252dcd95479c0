//! Positional number systems over digit sequences: values of digit strings in
//! an arbitrary base, read most-significant first (`digits_val`) or
//! least-significant first (`digits_val_lsb`), with the bounds, uniqueness and
//! padding facts that the page, address and decimal codecs rest on.

use vstd::prelude::*;
use vstd::arithmetic::power::pow;
use vstd::arithmetic::mul::lemma_mul_inequality;
use vstd::arithmetic::div_mod::lemma_fundamental_div_mod_converse;

verus! {

/// Value of a digit sequence read most-significant digit first (Horner form).
pub open spec fn digits_val(ds: Seq<int>, base: int) -> int
    decreases ds.len(),
{
    if ds.len() == 0 {
        0
    } else {
        digits_val(ds.drop_last(), base) * base + ds.last()
    }
}

/// Value of a digit sequence read least-significant digit first.
pub open spec fn digits_val_lsb(ds: Seq<int>, base: int) -> int
    decreases ds.len(),
{
    if ds.len() == 0 {
        0
    } else {
        ds.first() + base * digits_val_lsb(ds.drop_first(), base)
    }
}

/// The digits of a byte string, as integers.
pub open spec fn int_digits(s: Seq<u8>) -> Seq<int> {
    Seq::new(s.len(), |i: int| s[i] as int)
}

/// Every digit lies in `[0, base)`.
pub open spec fn digits_ok(ds: Seq<int>, base: int) -> bool {
    forall|i: int| 0 <= i < ds.len() ==> 0 <= #[trigger] ds[i] < base
}

/// A digit string of length `n` denotes a value in `[0, base^n)`.
pub proof fn lemma_digits_val_bounds(ds: Seq<int>, base: int)
    requires
        base >= 1,
        digits_ok(ds, base),
    ensures
        0 <= digits_val(ds, base) < pow(base, ds.len() as nat),
    decreases ds.len(),
{
    reveal(pow);
    if ds.len() == 0 {
    } else {
        let pre = ds.drop_last();
        assert(digits_ok(pre, base));
        lemma_digits_val_bounds(pre, base);
        let p = pow(base, pre.len() as nat);
        lemma_mul_inequality(digits_val(pre, base), p - 1, base);
        assert((p - 1) * base == p * base - base) by (nonlinear_arith);
        assert(pow(base, ds.len() as nat) == base * p);
        assert(p * base == base * p) by (nonlinear_arith);
        assert(digits_val(pre, base) * base >= 0) by (nonlinear_arith)
            requires digits_val(pre, base) >= 0 && base >= 1;
    }
}

/// Two digit strings of the same length over the same base denote the same
/// value only if they are equal: fixed-width positional notation is unique.
pub proof fn lemma_digits_val_injective(s: Seq<int>, t: Seq<int>, base: int)
    requires
        base >= 1,
        s.len() == t.len(),
        digits_ok(s, base),
        digits_ok(t, base),
        digits_val(s, base) == digits_val(t, base),
    ensures
        s == t,
    decreases s.len(),
{
    if s.len() == 0 {
        assert(s =~= t);
    } else {
        let v = digits_val(s, base);
        let sp = s.drop_last();
        let tp = t.drop_last();
        assert(digits_ok(sp, base));
        assert(digits_ok(tp, base));
        lemma_fundamental_div_mod_converse(v, base, digits_val(sp, base), s.last());
        lemma_fundamental_div_mod_converse(v, base, digits_val(tp, base), t.last());
        lemma_digits_val_injective(sp, tp, base);
        assert(s =~= sp.push(s.last()));
        assert(t =~= tp.push(t.last()));
        assert(s =~= t);
    }
}

/// Appending a digit at the most-significant end of a least-significant-first
/// string adds `d * base^len`.
pub proof fn lemma_digits_val_lsb_push(ds: Seq<int>, d: int, base: int)
    ensures
        digits_val_lsb(ds.push(d), base) == digits_val_lsb(ds, base) + d * pow(
            base,
            ds.len() as nat,
        ),
    decreases ds.len(),
{
    reveal(pow);
    if ds.len() == 0 {
        assert(ds.push(d).drop_first() =~= Seq::<int>::empty());
        assert(ds.push(d).first() == d);
        assert(d * 1 == d) by (nonlinear_arith);
        assert(digits_val_lsb(Seq::<int>::empty(), base) == 0);
        assert(digits_val_lsb(ds.push(d), base) == d);
        assert(pow(base, ds.len() as nat) == 1);
        assert(digits_val_lsb(ds, base) + d * pow(base, ds.len() as nat) == d);
    } else {
        assert(ds.push(d).drop_first() =~= ds.drop_first().push(d));
        assert(ds.push(d).first() == ds.first());
        lemma_digits_val_lsb_push(ds.drop_first(), d, base);
        let p = pow(base, (ds.len() - 1) as nat);
        assert(pow(base, ds.len() as nat) == base * p);
        let rest = ds.drop_first();
        assert(base * (digits_val_lsb(rest, base) + d * p) == base * digits_val_lsb(rest, base)
            + d * (base * p)) by (nonlinear_arith);
        assert(digits_val_lsb(ds.push(d), base) == ds.first() + base * digits_val_lsb(
            rest.push(d),
            base,
        ));
        assert(digits_val_lsb(rest.push(d), base) == digits_val_lsb(rest, base) + d * p);
        assert(digits_val_lsb(ds, base) == ds.first() + base * digits_val_lsb(rest, base));
        assert(digits_val_lsb(ds.push(d), base) == digits_val_lsb(ds, base) + d * (base * p));
    }
}

/// Least-significant-first counterpart of `lemma_digits_val_bounds`.
pub proof fn lemma_digits_val_lsb_bounds(ds: Seq<int>, base: int)
    requires
        base >= 1,
        digits_ok(ds, base),
    ensures
        0 <= digits_val_lsb(ds, base) < pow(base, ds.len() as nat),
    decreases ds.len(),
{
    reveal(pow);
    if ds.len() == 0 {
    } else {
        let rest = ds.drop_first();
        assert(digits_ok(rest, base)) by {
            assert(forall|i: int| 0 <= i < rest.len() ==> rest[i] == #[trigger] ds[i + 1]);
        }
        lemma_digits_val_lsb_bounds(rest, base);
        let p = pow(base, rest.len() as nat);
        assert(pow(base, ds.len() as nat) == base * p);
        assert(ds.first() + base * digits_val_lsb(rest, base) < base * p) by (nonlinear_arith)
            requires
                0 <= ds.first() < base,
                0 <= digits_val_lsb(rest, base) <= p - 1,
                base >= 1;
        assert(base * digits_val_lsb(rest, base) >= 0) by (nonlinear_arith)
            requires base >= 1 && digits_val_lsb(rest, base) >= 0;
    }
}

/// The value of a nonempty least-significant-first string is at least
/// `top_digit * base^(len-1)`.
pub proof fn lemma_digits_val_lsb_top(ds: Seq<int>, base: int)
    requires
        base >= 1,
        digits_ok(ds, base),
        ds.len() > 0,
    ensures
        digits_val_lsb(ds, base) >= ds.last() * pow(base, (ds.len() - 1) as nat),
{
    let pre = ds.drop_last();
    assert(digits_ok(pre, base));
    assert(ds =~= pre.push(ds.last()));
    lemma_digits_val_lsb_push(pre, ds.last(), base);
    lemma_digits_val_lsb_bounds(pre, base);
}

/// Reading a string least-significant first gives the same value as reading
/// its reversal most-significant first.
pub proof fn lemma_digits_val_rev(s: Seq<int>, t: Seq<int>, base: int)
    requires
        t.len() == s.len(),
        forall|i: int| 0 <= i < s.len() ==> #[trigger] t[i] == s[s.len() - 1 - i],
    ensures
        digits_val(t, base) == digits_val_lsb(s, base),
    decreases s.len(),
{
    if s.len() > 0 {
        let sp = s.drop_first();
        let tp = t.drop_last();
        assert(forall|i: int| 0 <= i < sp.len() ==> #[trigger] tp[i] == sp[sp.len() - 1 - i])
            by {
            assert(forall|i: int| 0 <= i < sp.len() ==> #[trigger] sp[i] == s[i + 1]);
        }
        lemma_digits_val_rev(sp, tp, base);
        assert(t.last() == s.first());
        assert(digits_val_lsb(sp, base) * base == base * digits_val_lsb(sp, base))
            by (nonlinear_arith);
    }
}

/// A string of zero digits denotes zero.
pub proof fn lemma_digits_val_all_zero(t: Seq<int>, base: int)
    requires
        forall|i: int| 0 <= i < t.len() ==> #[trigger] t[i] == 0,
    ensures
        digits_val(t, base) == 0,
    decreases t.len(),
{
    if t.len() > 0 {
        lemma_digits_val_all_zero(t.drop_last(), base);
    }
}

/// Leading zero digits do not change the value.
pub proof fn lemma_digits_val_zero_prefix(t: Seq<int>, k: int, base: int)
    requires
        0 <= k <= t.len(),
        forall|i: int| 0 <= i < k ==> #[trigger] t[i] == 0,
    ensures
        digits_val(t, base) == digits_val(t.skip(k), base),
    decreases t.len(),
{
    if t.len() == k {
        lemma_digits_val_all_zero(t, base);
        assert(t.skip(k) =~= Seq::<int>::empty());
    } else {
        let pre = t.drop_last();
        lemma_digits_val_zero_prefix(pre, k, base);
        assert(t.skip(k).drop_last() =~= pre.skip(k));
        assert(t.skip(k).last() == t.last());
    }
}

/// A string of maximal digits denotes `base^len - 1`.
pub proof fn lemma_digits_val_repeat_max(t: Seq<int>, base: int)
    requires
        base >= 1,
        forall|i: int| 0 <= i < t.len() ==> #[trigger] t[i] == base - 1,
    ensures
        digits_val(t, base) == pow(base, t.len() as nat) - 1,
    decreases t.len(),
{
    reveal(pow);
    if t.len() > 0 {
        let pre = t.drop_last();
        lemma_digits_val_repeat_max(pre, base);
        let p = pow(base, pre.len() as nat);
        assert(pow(base, t.len() as nat) == base * p);
        assert((p - 1) * base + (base - 1) == base * p - 1) by (nonlinear_arith);
    }
}

/// The value of a prefix never exceeds the value of the whole string.
pub proof fn lemma_digits_val_prefix_le(ds: Seq<int>, k: int, base: int)
    requires
        base >= 1,
        digits_ok(ds, base),
        0 <= k <= ds.len(),
    ensures
        digits_val(ds.take(k), base) <= digits_val(ds, base),
    decreases ds.len() - k,
{
    if k == ds.len() {
        assert(ds.take(k) =~= ds);
    } else {
        let a = ds.take(k);
        let b = ds.take(k + 1);
        assert(digits_ok(a, base)) by {
            assert(forall|i: int| 0 <= i < a.len() ==> a[i] == #[trigger] ds[i]);
        }
        lemma_digits_val_bounds(a, base);
        assert(b.drop_last() =~= a);
        assert(b.last() == ds[k]);
        assert(digits_val(a, base) * base >= digits_val(a, base)) by (nonlinear_arith)
            requires digits_val(a, base) >= 0 && base >= 1;
        lemma_digits_val_prefix_le(ds, k + 1, base);
    }
}

/// Raising a larger base to the same positive power gives a strictly larger
/// value.
pub proof fn lemma_pow_base_strict(a: int, b: int, e: nat)
    requires
        1 <= a < b,
        e >= 1,
    ensures
        pow(a, e) < pow(b, e),
    decreases e,
{
    reveal(pow);
    if e == 1 {
        assert(pow(a, 1) == a * pow(a, 0));
        assert(pow(b, 1) == b * pow(b, 0));
    } else {
        lemma_pow_base_strict(a, b, (e - 1) as nat);
        vstd::arithmetic::power::lemma_pow_positive(a, (e - 1) as nat);
        assert(a * pow(a, (e - 1) as nat) < b * pow(b, (e - 1) as nat)) by (nonlinear_arith)
            requires
                1 <= a < b,
                1 <= pow(a, (e - 1) as nat),
                pow(a, (e - 1) as nat) < pow(b, (e - 1) as nat);
    }
}

} // verus!
