//! The page-number codec: a page, a fixed-length string over the 29-symbol
//! alphabet, denotes the arbitrary-precision integer whose base-29 digits are
//! the alphabet indices of its symbols, most significant first. `to_number`
//! and `to_page` convert between the two representations.

use vstd::prelude::*;
use vstd::arithmetic::power::pow;
use vstd::arithmetic::power::lemma_pow_increases;
use vstd::arithmetic::div_mod::lemma_fundamental_div_mod;
use num_bigint::BigInt;

use crate::alphabet::{is_sym, sym_index, symbol_index, index_symbol};
use crate::bignum::{
    big_value, big_from_u32, big_clone, big_add, big_mul, big_div_rem_small, big_is_zero,
};
use crate::digits::{
    digits_val, digits_val_lsb, digits_ok, int_digits, lemma_digits_val_bounds,
    lemma_digits_val_injective, lemma_digits_val_lsb_push, lemma_digits_val_lsb_bounds,
    lemma_digits_val_lsb_top, lemma_digits_val_rev, lemma_digits_val_zero_prefix,
    lemma_digits_val_all_zero, lemma_digits_val_repeat_max,
};
use crate::error::BabelError;

verus! {

/// The exact number of symbols on a page.
pub const LENGTH_OF_PAGE: usize = 3239;

/// The base-29 digit string denoted by a text: alphabet indices of its
/// symbols, most significant first; bytes outside the alphabet contribute no
/// digit.
pub open spec fn page_digits(s: Seq<u8>) -> Seq<int>
    decreases s.len(),
{
    if s.len() == 0 {
        Seq::empty()
    } else if is_sym(s.last()) {
        page_digits(s.drop_last()).push(sym_index(s.last()))
    } else {
        page_digits(s.drop_last())
    }
}

/// The number a text denotes: its base-29 digit string read as an integer.
pub open spec fn page_value(s: Seq<u8>) -> int {
    digits_val(page_digits(s), 29)
}

/// A well-formed page: exactly `LENGTH_OF_PAGE` symbols of the alphabet.
pub open spec fn wf_page(s: Seq<u8>) -> bool {
    s.len() == LENGTH_OF_PAGE && forall|i: int| 0 <= i < s.len() ==> is_sym(#[trigger] s[i])
}

/// The alphabet indices of an all-symbol text, position by position.
pub open spec fn sym_digits(s: Seq<u8>) -> Seq<int> {
    Seq::new(s.len(), |i: int| sym_index(s[i]))
}

/// Page digit strings are base-29 digit strings, no longer than the text.
pub proof fn lemma_page_digits_ok(s: Seq<u8>)
    ensures
        digits_ok(page_digits(s), 29),
        page_digits(s).len() <= s.len(),
    decreases s.len(),
{
    if s.len() > 0 {
        lemma_page_digits_ok(s.drop_last());
    }
}

/// On an all-symbol text the digits are exactly the pointwise alphabet
/// indices.
pub proof fn lemma_page_digits_all_sym(s: Seq<u8>)
    requires
        forall|i: int| 0 <= i < s.len() ==> is_sym(#[trigger] s[i]),
    ensures
        page_digits(s) == sym_digits(s),
    decreases s.len(),
{
    if s.len() > 0 {
        lemma_page_digits_all_sym(s.drop_last());
        assert(sym_digits(s.drop_last()) =~= sym_digits(s).drop_last());
        assert(page_digits(s) =~= sym_digits(s));
    }
}

/// A well-formed page denotes a number in `[0, 29^LENGTH_OF_PAGE)`.
pub proof fn lemma_page_value_bounds(s: Seq<u8>)
    requires
        wf_page(s),
    ensures
        0 <= page_value(s) < pow(29, LENGTH_OF_PAGE as nat),
{
    lemma_page_digits_all_sym(s);
    lemma_page_digits_ok(s);
    lemma_digits_val_bounds(page_digits(s), 29);
}

/// Fixed-length base-29 notation is unique: two well-formed pages denoting
/// the same number are the same page. Together with the contracts of
/// `to_number` and `to_page` this is the page round trip: regenerating a page
/// from its number reproduces the page exactly.
pub proof fn lemma_page_round_trip(p: Seq<u8>, q: Seq<u8>)
    requires
        wf_page(p),
        wf_page(q),
        page_value(p) == page_value(q),
    ensures
        p == q,
{
    lemma_page_digits_all_sym(p);
    lemma_page_digits_all_sym(q);
    lemma_page_digits_ok(p);
    lemma_page_digits_ok(q);
    lemma_digits_val_injective(sym_digits(p), sym_digits(q), 29);
    assert forall|i: int| 0 <= i < p.len() implies p[i] == q[i] by {
        assert(sym_digits(p)[i] == sym_digits(q)[i]);
        crate::alphabet::lemma_sym_index_injective(p[i], q[i]);
    }
    assert(p =~= q);
}

/// The page of all `'a'` denotes zero; the page of all `'.'`, the greatest
/// symbol, denotes the greatest representable number, which stays below
/// `30^LENGTH_OF_PAGE`.
pub proof fn lemma_boundary_pages()
    ensures
        page_value(Seq::new(LENGTH_OF_PAGE as nat, |i: int| 97u8)) == 0,
        page_value(Seq::new(LENGTH_OF_PAGE as nat, |i: int| 46u8)) == pow(
            29,
            LENGTH_OF_PAGE as nat,
        ) - 1,
        pow(29, LENGTH_OF_PAGE as nat) - 1 < pow(30, LENGTH_OF_PAGE as nat),
{
    let pa = Seq::new(LENGTH_OF_PAGE as nat, |i: int| 97u8);
    let pd = Seq::new(LENGTH_OF_PAGE as nat, |i: int| 46u8);
    lemma_page_digits_all_sym(pa);
    lemma_page_digits_all_sym(pd);
    lemma_digits_val_all_zero(sym_digits(pa), 29);
    lemma_digits_val_repeat_max(sym_digits(pd), 29);
    crate::digits::lemma_pow_base_strict(29, 30, LENGTH_OF_PAGE as nat);
}

/// Reads a page as its base-29 number. Fails, with `InvalidPageLength`,
/// exactly when the text does not have `LENGTH_OF_PAGE` characters; bytes
/// outside the alphabet contribute no digit.
pub fn to_number(page: &Vec<u8>) -> (r: Result<BigInt, BabelError>)
    ensures
        r is Ok <==> page@.len() == LENGTH_OF_PAGE,
        r is Err ==> r->Err_0 == BabelError::InvalidPageLength,
        r is Ok ==> big_value(r->Ok_0) == page_value(page@),
{
    if page.len() != LENGTH_OF_PAGE {
        return Err(BabelError::InvalidPageLength);
    }
    let base = big_from_u32(29);
    let mut acc = big_from_u32(0);
    let mut i: usize = 0;
    while i < page.len()
        invariant
            i <= page@.len(),
            big_value(base) == 29,
            big_value(acc) == page_value(page@.take(i as int)),
        decreases page@.len() - i,
    {
        proof {
            let t0 = page@.take(i as int);
            let t1 = page@.take(i as int + 1);
            assert(t1.drop_last() =~= t0);
            if is_sym(page@[i as int]) {
                assert(page_digits(t1) == page_digits(t0).push(sym_index(page@[i as int])));
                assert(page_digits(t1).drop_last() =~= page_digits(t0));
                assert(digits_val(page_digits(t1), 29) == digits_val(page_digits(t0), 29) * 29
                    + sym_index(page@[i as int]));
            } else {
                assert(page_digits(t1) == page_digits(t0));
            }
        }
        match symbol_index(page[i]) {
            Some(d) => {
                let shifted = big_mul(&acc, &base);
                acc = big_add(&shifted, &big_from_u32(d as u32));
            },
            None => {},
        }
        i += 1;
    }
    proof {
        assert(page@.take(page@.len() as int) =~= page@);
    }
    Ok(acc)
}

/// Regenerates the unique well-formed page that denotes a number: repeated
/// division by 29 yields the digits, which are left-padded with `'a'`, the
/// zero symbol, to the fixed page length.
pub fn to_page(n: &BigInt) -> (p: Vec<u8>)
    requires
        0 <= big_value(*n) < pow(29, LENGTH_OF_PAGE as nat),
    ensures
        wf_page(p@),
        page_value(p@) == big_value(*n),
{
    let mut x = big_clone(n);
    let mut ds: Vec<u8> = Vec::new();
    proof {
        reveal(pow);
        assert(int_digits(ds@) =~= Seq::<int>::empty());
        assert(digits_val_lsb(int_digits(ds@), 29) == 0);
        assert(pow(29, 0nat) == 1);
    }
    loop
        invariant_except_break
            big_value(x) >= 0,
            digits_ok(int_digits(ds@), 29),
            digits_val_lsb(int_digits(ds@), 29) + big_value(x) * pow(29, ds@.len() as nat)
                == big_value(*n),
            big_value(x) == 0 ==> ds@.len() == 0 || int_digits(ds@).last() != 0,
            big_value(*n) < pow(29, LENGTH_OF_PAGE as nat),
        ensures
            big_value(x) == 0,
            digits_ok(int_digits(ds@), 29),
            digits_val_lsb(int_digits(ds@), 29) == big_value(*n),
            ds@.len() == 0 || int_digits(ds@).last() != 0,
            big_value(*n) < pow(29, LENGTH_OF_PAGE as nat),
        decreases big_value(x),
    {
        if big_is_zero(&x) {
            proof {
                assert(big_value(x) * pow(29, ds@.len() as nat) == 0);
            }
            break;
        }
        let ghost old_x = big_value(x);
        let ghost old_ds = ds@;
        let (q, r) = big_div_rem_small(&x, 29);
        ds.push(r as u8);
        x = q;
        proof {
            reveal(pow);
            lemma_fundamental_div_mod(old_x, 29);
            assert(int_digits(ds@) =~= int_digits(old_ds).push(r as int));
            lemma_digits_val_lsb_push(int_digits(old_ds), r as int, 29);
            let p29 = pow(29, old_ds.len() as nat);
            assert(pow(29, ds@.len() as nat) == 29 * p29);
            assert(old_x * p29 == (29 * (old_x / 29) + old_x % 29) * p29);
            assert((29 * (old_x / 29) + old_x % 29) * p29 == (old_x / 29) * (29 * p29) + (old_x
                % 29) * p29) by (nonlinear_arith);
            vstd::arithmetic::div_mod::lemma_div_decreases(old_x, 29);
            vstd::arithmetic::div_mod::lemma_div_pos_is_pos(old_x, 29);
        }
    }
    proof {
        // the digit string cannot be longer than a page
        if ds@.len() > LENGTH_OF_PAGE {
            lemma_digits_val_lsb_top(int_digits(ds@), 29);
            lemma_pow_increases(29, LENGTH_OF_PAGE as nat, (ds@.len() - 1) as nat);
            assert(int_digits(ds@).last() * pow(29, (ds@.len() - 1) as nat) >= 1 * pow(
                29,
                (ds@.len() - 1) as nat,
            )) by (nonlinear_arith)
                requires
                    int_digits(ds@).last() >= 1,
                    pow(29, (ds@.len() - 1) as nat) >= 0;
            assert(false);
        }
    }
    let dl = ds.len();
    let mut p: Vec<u8> = Vec::new();
    while p.len() + dl < LENGTH_OF_PAGE
        invariant
            dl == ds@.len(),
            dl <= LENGTH_OF_PAGE,
            p@.len() + dl <= LENGTH_OF_PAGE,
            forall|i: int| 0 <= i < p@.len() ==> #[trigger] p@[i] == 97u8,
        decreases LENGTH_OF_PAGE - p@.len(),
    {
        p.push(97);
    }
    let ghost k = p@.len() as int;
    let mut j: usize = dl;
    while j > 0
        invariant
            j <= dl,
            dl == ds@.len(),
            digits_ok(int_digits(ds@), 29),
            0 <= k,
            k + dl == LENGTH_OF_PAGE,
            p@.len() == k + (dl - j),
            forall|i: int| 0 <= i < k ==> #[trigger] p@[i] == 97u8,
            forall|i: int|
                k <= i < p@.len() ==> is_sym(#[trigger] p@[i]) && sym_index(p@[i]) == ds@[dl - 1 - (
                i - k)] as int,
        decreases j,
    {
        j -= 1;
        proof {
            assert(int_digits(ds@)[j as int] == ds@[j as int] as int);
        }
        let ghost oldp = p@;
        let c = index_symbol(ds[j]);
        p.push(c);
        proof {
            assert(p@ == oldp.push(c));
            assert forall|i: int|
                k <= i < p@.len() implies is_sym(#[trigger] p@[i]) && sym_index(p@[i]) == ds@[dl - 1
                - (i - k)] as int by {
                if i < p@.len() - 1 {
                    assert(0 <= i < oldp.len());
                    assert(oldp.push(c)[i] == oldp[i]);
                    assert(p@[i] == oldp[i]);
                } else {
                    assert(p@[i] == c);
                }
            }
        }
    }
    proof {
        assert(p@.len() == LENGTH_OF_PAGE);
        assert forall|i: int| 0 <= i < p@.len() implies is_sym(#[trigger] p@[i]) by {
            if i < k {
                assert(p@[i] == 97);
            }
        }
        lemma_page_digits_all_sym(p@);
        let sd = sym_digits(p@);
        assert(forall|i: int| 0 <= i < k ==> #[trigger] sd[i] == 0);
        lemma_digits_val_zero_prefix(sd, k, 29);
        let tail = sd.skip(k);
        let dsi = int_digits(ds@);
        assert(tail.len() == dsi.len());
        assert(forall|i: int| 0 <= i < dsi.len() ==> #[trigger] tail[i] == dsi[dsi.len() - 1 - i]);
        lemma_digits_val_rev(dsi, tail, 29);
    }
    p
}

} // verus!
