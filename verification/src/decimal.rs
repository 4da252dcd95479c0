//! Decimal rendering and parsing for the small numeric fields of the scheme:
//! coordinate fields are rendered zero-padded to a fixed width, the recorded
//! byte length of a file canonically.

use vstd::prelude::*;
use vstd::arithmetic::power::pow;
use vstd::arithmetic::div_mod::{
    lemma_fundamental_div_mod, lemma_fundamental_div_mod_converse, lemma_div_is_ordered,
    lemma_div_decreases, lemma_div_pos_is_pos,
};

use crate::digits::{
    digits_val, digits_val_lsb, digits_ok, lemma_digits_val_lsb_push, lemma_digits_val_rev,
    lemma_digits_val_prefix_le,
};

verus! {

/// Whether a byte is a decimal digit.
pub open spec fn is_dec(c: u8) -> bool {
    48 <= c && c <= 57
}

/// The digit values of a decimal string, most significant first.
pub open spec fn dec_digits(s: Seq<u8>) -> Seq<int> {
    Seq::new(s.len(), |i: int| s[i] - 48)
}

/// The number a decimal string denotes.
pub open spec fn dec_value(s: Seq<u8>) -> int {
    digits_val(dec_digits(s), 10)
}

/// A parsable decimal string: nonempty, all digits.
pub open spec fn wf_dec(s: Seq<u8>) -> bool {
    s.len() > 0 && forall|i: int| 0 <= i < s.len() ==> is_dec(#[trigger] s[i])
}

/// Decimal strings are digit strings in base 10.
pub proof fn lemma_dec_digits_ok(s: Seq<u8>)
    requires
        forall|i: int| 0 <= i < s.len() ==> is_dec(#[trigger] s[i]),
    ensures
        digits_ok(dec_digits(s), 10),
{
}

/// Parses a decimal string into a `u64`. Returns `None` exactly when the
/// string is empty, holds a byte that is no decimal digit, or denotes a
/// number above `u64::MAX`.
pub fn dec_to_u64(s: &Vec<u8>) -> (r: Option<u64>)
    ensures
        r is Some <==> wf_dec(s@) && dec_value(s@) <= u64::MAX,
        r is Some ==> r->0 as int == dec_value(s@),
{
    if s.len() == 0 {
        return None;
    }
    let mut acc: u64 = 0;
    let mut i: usize = 0;
    while i < s.len()
        invariant
            i <= s@.len(),
            s@.len() > 0,
            forall|j: int| 0 <= j < i ==> is_dec(#[trigger] s@[j]),
            acc as int == dec_value(s@.take(i as int)),
        decreases s@.len() - i,
    {
        let c = s[i];
        if !(48 <= c && c <= 57) {
            return None;
        }
        let d = c - 48;
        proof {
            let t0 = s@.take(i as int);
            let t1 = s@.take(i as int + 1);
            assert(dec_digits(t1).drop_last() =~= dec_digits(t0));
            assert(dec_digits(t1).last() == s@[i as int] - 48);
            assert(digits_val(dec_digits(t1), 10) == digits_val(dec_digits(t0), 10) * 10 + (s@[
                i as int
            ] - 48));
        }
        let wide: u128 = acc as u128 * 10 + d as u128;
        if wide > u64::MAX as u128 {
            proof {
                if wf_dec(s@) {
                    lemma_dec_digits_ok(s@);
                    lemma_digits_val_prefix_le(dec_digits(s@), i as int + 1, 10);
                    assert(dec_digits(s@).take(i as int + 1) =~= dec_digits(
                        s@.take(i as int + 1),
                    ));
                }
            }
            return None;
        }
        acc = wide as u64;
        i += 1;
    }
    proof {
        assert(s@.take(s@.len() as int) =~= s@);
    }
    Some(acc)
}

/// The decimal digit character with the given value.
fn dec_symbol(d: u64) -> (c: u8)
    requires
        d < 10,
    ensures
        is_dec(c),
        c - 48 == d as int,
{
    48 + (d as u8)
}

/// Renders a number zero-padded to a fixed decimal width, as the packed
/// coordinate fields require.
pub fn u64_to_dec_fixed(v: u64, width: usize) -> (r: Vec<u8>)
    requires
        1 <= width <= 19,
        (v as int) < pow(10, width as nat),
    ensures
        r@.len() == width,
        forall|i: int| 0 <= i < r@.len() ==> is_dec(#[trigger] r@[i]),
        dec_value(r@) == v as int,
{
    let mut x = v;
    let mut ds: Vec<u8> = Vec::new();
    proof {
        reveal(pow);
        assert(dec_digits(ds@) =~= Seq::<int>::empty());
    }
    while ds.len() < width
        invariant
            ds@.len() <= width,
            forall|i: int| 0 <= i < ds@.len() ==> is_dec(#[trigger] ds@[i]),
            digits_ok(dec_digits(ds@), 10),
            digits_val_lsb(dec_digits(ds@), 10) + x as int * pow(10, ds@.len() as nat) == v as int,
            (x as int) < pow(10, (width - ds@.len()) as nat),
        decreases width - ds@.len(),
    {
        let ghost old_x = x as int;
        let ghost old_ds = ds@;
        let c = dec_symbol(x % 10);
        ds.push(c);
        x = x / 10;
        proof {
            reveal(pow);
            lemma_fundamental_div_mod(old_x, 10);
            assert(dec_digits(ds@) =~= dec_digits(old_ds).push(old_x % 10));
            lemma_digits_val_lsb_push(dec_digits(old_ds), old_x % 10, 10);
            let p10 = pow(10, old_ds.len() as nat);
            assert(pow(10, ds@.len() as nat) == 10 * p10);
            assert((10 * (old_x / 10) + old_x % 10) * p10 == (old_x / 10) * (10 * p10) + (old_x
                % 10) * p10) by (nonlinear_arith);
            // the remaining value shrinks below the remaining width
            let m = pow(10, (width - ds@.len()) as nat);
            assert(pow(10, (width - old_ds.len()) as nat) == 10 * m);
            lemma_div_is_ordered(old_x, 10 * m - 1, 10);
            lemma_fundamental_div_mod_converse(10 * m - 1, 10, m - 1, 9);
        }
    }
    proof {
        assert(pow(10, 0nat) == 1) by {
            reveal(pow);
        }
        assert((width - ds@.len()) as nat == 0nat);
        assert(x == 0);
        assert(x as int * pow(10, ds@.len() as nat) == 0) by (nonlinear_arith)
            requires x as int == 0;
        assert(digits_val_lsb(dec_digits(ds@), 10) == v as int);
    }
    let dl = ds.len();
    let mut r: Vec<u8> = Vec::new();
    let mut j: usize = dl;
    while j > 0
        invariant
            j <= dl,
            dl == ds@.len(),
            forall|i: int| 0 <= i < ds@.len() ==> is_dec(#[trigger] ds@[i]),
            r@.len() == dl - j,
            forall|i: int| 0 <= i < r@.len() ==> #[trigger] r@[i] == ds@[dl - 1 - i],
        decreases j,
    {
        j -= 1;
        let ghost oldr = r@;
        let c = ds[j];
        r.push(c);
        proof {
            assert forall|i: int| 0 <= i < r@.len() implies #[trigger] r@[i] == ds@[dl - 1 - i] by {
                if i < r@.len() - 1 {
                    assert(r@[i] == oldr[i]);
                }
            }
        }
    }
    proof {
        let rd = dec_digits(r@);
        let dsd = dec_digits(ds@);
        assert(forall|i: int| 0 <= i < rd.len() ==> #[trigger] rd[i] == dsd[dsd.len() - 1 - i]);
        lemma_digits_val_rev(dsd, rd, 10);
    }
    r
}

/// Renders a number in canonical decimal: no leading zero, zero itself as
/// `"0"`.
pub fn u64_to_dec(v: u64) -> (r: Vec<u8>)
    ensures
        wf_dec(r@),
        r@.len() > 1 ==> r@[0] != 48,
        dec_value(r@) == v as int,
{
    if v == 0 {
        let mut r: Vec<u8> = Vec::new();
        r.push(48);
        proof {
            assert(dec_digits(r@) =~= seq![0int]);
            assert(dec_digits(r@).drop_last() =~= Seq::<int>::empty());
            assert(digits_val(Seq::<int>::empty(), 10) == 0);
            assert(dec_value(r@) == 0);
        }
        return r;
    }
    let mut x = v;
    let mut ds: Vec<u8> = Vec::new();
    proof {
        reveal(pow);
        assert(dec_digits(ds@) =~= Seq::<int>::empty());
    }
    loop
        invariant_except_break
            forall|i: int| 0 <= i < ds@.len() ==> is_dec(#[trigger] ds@[i]),
            digits_ok(dec_digits(ds@), 10),
            digits_val_lsb(dec_digits(ds@), 10) + x as int * pow(10, ds@.len() as nat) == v as int,
            x == 0 ==> ds@.len() > 0 && dec_digits(ds@).last() != 0,
            v > 0,
        ensures
            x == 0,
            ds@.len() > 0,
            forall|i: int| 0 <= i < ds@.len() ==> is_dec(#[trigger] ds@[i]),
            digits_ok(dec_digits(ds@), 10),
            digits_val_lsb(dec_digits(ds@), 10) == v as int,
            dec_digits(ds@).last() != 0,
        decreases x,
    {
        if x == 0 {
            break;
        }
        let ghost old_x = x as int;
        let ghost old_ds = ds@;
        let c = dec_symbol(x % 10);
        ds.push(c);
        x = x / 10;
        proof {
            reveal(pow);
            lemma_fundamental_div_mod(old_x, 10);
            assert(dec_digits(ds@) =~= dec_digits(old_ds).push(old_x % 10));
            lemma_digits_val_lsb_push(dec_digits(old_ds), old_x % 10, 10);
            let p10 = pow(10, old_ds.len() as nat);
            assert(pow(10, ds@.len() as nat) == 10 * p10);
            assert((10 * (old_x / 10) + old_x % 10) * p10 == (old_x / 10) * (10 * p10) + (old_x
                % 10) * p10) by (nonlinear_arith);
            lemma_div_decreases(old_x, 10);
            lemma_div_pos_is_pos(old_x, 10);
        }
    }
    let dl = ds.len();
    let mut r: Vec<u8> = Vec::new();
    let mut j: usize = dl;
    while j > 0
        invariant
            j <= dl,
            dl == ds@.len(),
            dl > 0,
            forall|i: int| 0 <= i < ds@.len() ==> is_dec(#[trigger] ds@[i]),
            digits_ok(dec_digits(ds@), 10),
            dec_digits(ds@).last() != 0,
            r@.len() == dl - j,
            forall|i: int| 0 <= i < r@.len() ==> #[trigger] r@[i] == ds@[dl - 1 - i],
        decreases j,
    {
        j -= 1;
        let ghost oldr = r@;
        let c = ds[j];
        r.push(c);
        proof {
            assert forall|i: int| 0 <= i < r@.len() implies #[trigger] r@[i] == ds@[dl - 1 - i] by {
                if i < r@.len() - 1 {
                    assert(r@[i] == oldr[i]);
                }
            }
        }
    }
    proof {
        let rd = dec_digits(r@);
        let dsd = dec_digits(ds@);
        assert(forall|i: int| 0 <= i < rd.len() ==> #[trigger] rd[i] == dsd[dsd.len() - 1 - i]);
        lemma_digits_val_rev(dsd, rd, 10);
        assert(r@[0] == ds@[dl - 1]);
        assert(rd[0] == dsd.last());
    }
    r
}

} // verus!
