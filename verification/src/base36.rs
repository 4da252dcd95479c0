//! Base-36 rendering and parsing of the arbitrary-precision integers that
//! addresses carry. Rendering emits the canonical digits `0-9A-Z` with no
//! leading zero; parsing also accepts lowercase letters as digits.

use vstd::prelude::*;
use vstd::arithmetic::power::pow;
use vstd::arithmetic::div_mod::lemma_fundamental_div_mod;
use num_bigint::BigInt;

use crate::bignum::{
    big_value, big_from_u32, big_clone, big_add, big_mul, big_div_rem_small, big_is_zero,
};
use crate::digits::{
    digits_val, digits_val_lsb, digits_ok, lemma_digits_val_lsb_push, lemma_digits_val_rev,
};
use crate::error::BabelError;

verus! {

/// Whether a byte is a base-36 digit: `0-9`, `A-Z` or `a-z`.
pub open spec fn is_b36(c: u8) -> bool {
    (48 <= c && c <= 57) || (65 <= c && c <= 90) || (97 <= c && c <= 122)
}

/// Whether a byte is a digit in the canonical form that rendering emits:
/// `0-9` or `A-Z`.
pub open spec fn is_b36_canon(c: u8) -> bool {
    (48 <= c && c <= 57) || (65 <= c && c <= 90)
}

/// The numeric value of a base-36 digit.
pub open spec fn b36_index(c: u8) -> int {
    if 48 <= c && c <= 57 {
        c - 48
    } else if 65 <= c && c <= 90 {
        c - 55
    } else {
        c - 87
    }
}

/// The digit values of a base-36 string, most significant first.
pub open spec fn b36_digits(s: Seq<u8>) -> Seq<int> {
    Seq::new(s.len(), |i: int| b36_index(s[i]))
}

/// The integer a base-36 string denotes.
pub open spec fn b36_value(s: Seq<u8>) -> int {
    digits_val(b36_digits(s), 36)
}

/// A parsable base-36 string: nonempty, all digits.
pub open spec fn wf_b36(s: Seq<u8>) -> bool {
    s.len() > 0 && forall|i: int| 0 <= i < s.len() ==> is_b36(#[trigger] s[i])
}

/// What rendering produces: canonical digits without a leading zero.
pub open spec fn canon_b36(s: Seq<u8>) -> bool {
    s.len() > 0 && (forall|i: int| 0 <= i < s.len() ==> is_b36_canon(#[trigger] s[i])) && (s.len()
        > 1 ==> s[0] != 48)
}

/// Base-36 digit strings are digit strings in base 36.
pub proof fn lemma_b36_digits_ok(s: Seq<u8>)
    requires
        forall|i: int| 0 <= i < s.len() ==> is_b36(#[trigger] s[i]),
    ensures
        digits_ok(b36_digits(s), 36),
{
}

/// The canonical digit character with the given value.
fn b36_symbol(d: u8) -> (c: u8)
    requires
        d < 36,
    ensures
        is_b36_canon(c),
        b36_index(c) == d as int,
{
    if d < 10 {
        48 + d
    } else {
        55 + d
    }
}

/// Renders a non-negative integer in base 36, canonically: digits `0-9A-Z`,
/// no leading zero, zero itself as `"0"`.
pub fn int_to_base36(x: &BigInt) -> (r: Vec<u8>)
    requires
        big_value(*x) >= 0,
    ensures
        canon_b36(r@),
        b36_value(r@) == big_value(*x),
{
    if big_is_zero(x) {
        let mut r: Vec<u8> = Vec::new();
        r.push(48);
        proof {
            assert(b36_digits(r@) =~= seq![0int]);
            assert(b36_digits(r@).drop_last() =~= Seq::<int>::empty());
            assert(digits_val(Seq::<int>::empty(), 36) == 0);
            assert(b36_value(r@) == 0);
        }
        return r;
    }
    let mut v = big_clone(x);
    let mut ds: Vec<u8> = Vec::new();
    proof {
        reveal(pow);
        assert(b36_digits(ds@) =~= Seq::<int>::empty());
    }
    loop
        invariant_except_break
            big_value(v) >= 0,
            forall|i: int| 0 <= i < ds@.len() ==> is_b36_canon(#[trigger] ds@[i]),
            digits_ok(b36_digits(ds@), 36),
            digits_val_lsb(b36_digits(ds@), 36) + big_value(v) * pow(36, ds@.len() as nat)
                == big_value(*x),
            big_value(v) == 0 ==> ds@.len() > 0 && b36_digits(ds@).last() != 0,
            big_value(*x) > 0,
        ensures
            big_value(v) == 0,
            ds@.len() > 0,
            forall|i: int| 0 <= i < ds@.len() ==> is_b36_canon(#[trigger] ds@[i]),
            digits_ok(b36_digits(ds@), 36),
            digits_val_lsb(b36_digits(ds@), 36) == big_value(*x),
            b36_digits(ds@).last() != 0,
        decreases big_value(v),
    {
        if big_is_zero(&v) {
            break;
        }
        let ghost old_v = big_value(v);
        let ghost old_ds = ds@;
        let (q, r) = big_div_rem_small(&v, 36);
        let c = b36_symbol(r as u8);
        ds.push(c);
        v = q;
        proof {
            reveal(pow);
            lemma_fundamental_div_mod(old_v, 36);
            assert(b36_digits(ds@) =~= b36_digits(old_ds).push(r as int));
            lemma_digits_val_lsb_push(b36_digits(old_ds), r as int, 36);
            let p36 = pow(36, old_ds.len() as nat);
            assert(pow(36, ds@.len() as nat) == 36 * p36);
            assert((36 * (old_v / 36) + old_v % 36) * p36 == (old_v / 36) * (36 * p36) + (old_v
                % 36) * p36) by (nonlinear_arith);
            vstd::arithmetic::div_mod::lemma_div_decreases(old_v, 36);
            vstd::arithmetic::div_mod::lemma_div_pos_is_pos(old_v, 36);
        }
    }
    let dl = ds.len();
    let mut r: Vec<u8> = Vec::new();
    let mut j: usize = dl;
    while j > 0
        invariant
            j <= dl,
            dl == ds@.len(),
            dl > 0,
            forall|i: int| 0 <= i < ds@.len() ==> is_b36_canon(#[trigger] ds@[i]),
            digits_ok(b36_digits(ds@), 36),
            b36_digits(ds@).last() != 0,
            r@.len() == dl - j,
            forall|i: int| 0 <= i < r@.len() ==> #[trigger] r@[i] == ds@[dl - 1 - i],
        decreases j,
    {
        j -= 1;
        let ghost oldr = r@;
        let c = ds[j];
        r.push(c);
        proof {
            assert forall|i: int| 0 <= i < r@.len() implies #[trigger] r@[i] == ds@[dl - 1 - i] by {
                if i < r@.len() - 1 {
                    assert(r@[i] == oldr[i]);
                }
            }
        }
    }
    proof {
        let rd = b36_digits(r@);
        let dsd = b36_digits(ds@);
        assert(forall|i: int| 0 <= i < rd.len() ==> #[trigger] rd[i] == dsd[dsd.len() - 1 - i]);
        lemma_digits_val_rev(dsd, rd, 36);
        assert(r@[0] == ds@[dl - 1]);
        assert(b36_index(r@[0]) == dsd.last());
        assert(r@.len() > 1 ==> r@[0] != 48);
    }
    r
}

/// Parses a base-36 string. Fails, with `InvalidAddress`, exactly when the
/// string is empty or holds a byte that is no base-36 digit.
pub fn base36_to_int(s: &Vec<u8>) -> (r: Result<BigInt, BabelError>)
    ensures
        r is Ok <==> wf_b36(s@),
        r is Err ==> r->Err_0 == BabelError::InvalidAddress,
        r is Ok ==> big_value(r->Ok_0) == b36_value(s@),
{
    if s.len() == 0 {
        return Err(BabelError::InvalidAddress);
    }
    let base = big_from_u32(36);
    let mut acc = big_from_u32(0);
    let mut i: usize = 0;
    while i < s.len()
        invariant
            i <= s@.len(),
            big_value(base) == 36,
            forall|j: int| 0 <= j < i ==> is_b36(#[trigger] s@[j]),
            big_value(acc) == b36_value(s@.take(i as int)),
        decreases s@.len() - i,
    {
        let c = s[i];
        let d: u8 = if 48 <= c && c <= 57 {
            c - 48
        } else if 65 <= c && c <= 90 {
            c - 55
        } else if 97 <= c && c <= 122 {
            c - 87
        } else {
            return Err(BabelError::InvalidAddress);
        };
        proof {
            let t0 = s@.take(i as int);
            let t1 = s@.take(i as int + 1);
            assert(b36_digits(t1).drop_last() =~= b36_digits(t0));
            assert(b36_digits(t1).last() == b36_index(s@[i as int]));
            assert(digits_val(b36_digits(t1), 36) == digits_val(b36_digits(t0), 36) * 36
                + b36_index(s@[i as int]));
        }
        let shifted = big_mul(&acc, &base);
        acc = big_add(&shifted, &big_from_u32(d as u32));
        i += 1;
    }
    proof {
        assert(s@.take(s@.len() as int) =~= s@);
    }
    Ok(acc)
}

} // verus!
