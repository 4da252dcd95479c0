//! The address codec. An address is the string
//! `"<base36 digits>:<wall>:<shelf>:<volume>:<page index>"`, where the
//! base-36 digits render `page_number + loc_int * 30^LENGTH_OF_PAGE`. Every
//! possible page number is below the multiplier `30^LENGTH_OF_PAGE`, so the
//! decomposition of that combined integer is unique and decoding recovers the
//! page by plain subtraction.

use vstd::prelude::*;
use vstd::arithmetic::power::pow;
use vstd::arithmetic::power::lemma_pow_positive;
use vstd::arithmetic::mul::lemma_mul_nonnegative;
use num_bigint::BigInt;

use crate::alphabet::{strip_pad, trim_pad};
use crate::base36::{
    wf_b36, canon_b36, b36_value, int_to_base36, base36_to_int,
};
use crate::bignum::{
    big_value, big_from_u32, big_add, big_sub, big_mul, big_lt, big_pow,
};
use crate::decimal::{is_dec, wf_dec, dec_value, dec_to_u64, u64_to_dec_fixed};
use crate::digits::lemma_digits_val_bounds;
use crate::error::BabelError;
use crate::fields::{
    colon_free, compose_addr, has_five_fields, split5, lemma_decomposition_unique,
};
use crate::location::LocationCoordinate;
use crate::page::{
    LENGTH_OF_PAGE, page_value, page_digits, wf_page, to_number, to_page, lemma_page_digits_ok,
    lemma_page_value_bounds, lemma_page_round_trip,
};

verus! {

/// The constant `30^LENGTH_OF_PAGE` separating the coordinate part of a
/// combined integer from its page-number part.
pub fn multiplier() -> (m: BigInt)
    ensures
        big_value(m) == pow(30, LENGTH_OF_PAGE as nat),
{
    let thirty = big_from_u32(30);
    big_pow(&thirty, LENGTH_OF_PAGE as u32)
}

/// The combined integer an address for text `p` with coordinate `c` renders.
pub open spec fn combined_value(p: Seq<u8>, c: LocationCoordinate) -> int {
    page_value(p) + c.loc_int_spec() * pow(30, LENGTH_OF_PAGE as nat)
}

/// The five fields of an address that encoding text `p` with coordinate `c`
/// produces: canonical base-36 digits of the combined integer, and the
/// coordinate fields zero-padded to widths 1, 1, 2 and 3.
pub open spec fn address_parts_for(
    d: Seq<u8>,
    w: Seq<u8>,
    s: Seq<u8>,
    v: Seq<u8>,
    g: Seq<u8>,
    p: Seq<u8>,
    c: LocationCoordinate,
) -> bool {
    &&& canon_b36(d)
    &&& b36_value(d) == combined_value(p, c)
    &&& w.len() == 1 && wf_dec(w) && dec_value(w) == c.wall
    &&& s.len() == 1 && wf_dec(s) && dec_value(s) == c.shelf
    &&& v.len() == 2 && wf_dec(v) && dec_value(v) == c.volume
    &&& g.len() == 3 && wf_dec(g) && dec_value(g) == c.page_index
}

/// `addr` is the address that encoding `p` with coordinate `c` produces.
pub open spec fn is_address_for(addr: Seq<u8>, p: Seq<u8>, c: LocationCoordinate) -> bool {
    exists|d: Seq<u8>, w: Seq<u8>, s: Seq<u8>, v: Seq<u8>, g: Seq<u8>|
        address_parts_for(d, w, s, v, g, p, c) && addr == #[trigger] compose_addr(d, w, s, v, g)
}

/// The numeric fields of an address fit the fixed widths of the decimal
/// packing.
pub open spec fn field_values_ok(w: Seq<u8>, s: Seq<u8>, v: Seq<u8>, g: Seq<u8>) -> bool {
    &&& wf_dec(w) && dec_value(w) <= 9
    &&& wf_dec(s) && dec_value(s) <= 9
    &&& wf_dec(v) && dec_value(v) <= 99
    &&& wf_dec(g) && dec_value(g) <= 999
}

/// The packed coordinate integer reconstructed from the numeric field
/// values, with the same fixed widths encoding uses.
pub open spec fn packed_loc(w: Seq<u8>, s: Seq<u8>, v: Seq<u8>, g: Seq<u8>) -> int {
    dec_value(g) * 10000 + dec_value(v) * 100 + dec_value(s) * 10 + dec_value(w)
}

/// What decoding returns for an address with the given five fields: the page
/// of the recovered number, `InvalidAddress` for malformed fields or a
/// number outside `[0, 30^LENGTH_OF_PAGE)`, and the internal
/// `VerificationFailure` for a number representable in the combined space
/// but too large for any page.
pub open spec fn decode_outcome(
    d: Seq<u8>,
    w: Seq<u8>,
    s: Seq<u8>,
    v: Seq<u8>,
    g: Seq<u8>,
    r: Result<Vec<u8>, BabelError>,
) -> bool {
    if !(wf_b36(d) && field_values_ok(w, s, v, g)) {
        r == Err::<Vec<u8>, BabelError>(BabelError::InvalidAddress)
    } else {
        let pn = b36_value(d) - packed_loc(w, s, v, g) * pow(30, LENGTH_OF_PAGE as nat);
        if pn < 0 || pn >= pow(30, LENGTH_OF_PAGE as nat) {
            r == Err::<Vec<u8>, BabelError>(BabelError::InvalidAddress)
        } else if pn >= pow(29, LENGTH_OF_PAGE as nat) {
            r == Err::<Vec<u8>, BabelError>(BabelError::VerificationFailure)
        } else {
            r is Ok && wf_page(r->Ok_0@) && page_value(r->Ok_0@) == pn
        }
    }
}

/// The full contract of decoding: the outcome is determined by the unique
/// decomposition of the address into five colon-free fields, and an address
/// without one is rejected.
pub open spec fn decode_post(addr: Seq<u8>, r: Result<Vec<u8>, BabelError>) -> bool {
    &&& forall|d: Seq<u8>, w: Seq<u8>, s: Seq<u8>, v: Seq<u8>, g: Seq<u8>|
        (colon_free(d) && colon_free(w) && colon_free(s) && colon_free(v) && colon_free(g) && addr
            == #[trigger] compose_addr(d, w, s, v, g)) ==> decode_outcome(d, w, s, v, g, r)
    &&& (!has_five_fields(addr) ==> r == Err::<Vec<u8>, BabelError>(BabelError::InvalidAddress))
}

/// Appends a copy of a byte string.
fn push_all(out: &mut Vec<u8>, s: &Vec<u8>)
    ensures
        final(out)@ == old(out)@ + s@,
{
    let mut i: usize = 0;
    while i < s.len()
        invariant
            i <= s@.len(),
            out@ == old(out)@ + s@.take(i as int),
        decreases s@.len() - i,
    {
        out.push(s[i]);
        proof {
            assert(old(out)@ + s@.take(i as int + 1) =~= (old(out)@ + s@.take(i as int)).push(
                s@[i as int],
            ));
        }
        i += 1;
    }
    proof {
        assert(s@.take(s@.len() as int) =~= s@);
    }
}

/// Canonical base-36 digits never hold the separator.
proof fn lemma_canon_colon_free(d: Seq<u8>)
    requires
        canon_b36(d),
    ensures
        colon_free(d),
{
    assert forall|i: int| 0 <= i < d.len() implies #[trigger] d[i] != 58 by {
        assert(crate::base36::is_b36_canon(d[i]));
    }
}

/// Decimal digit strings never hold the separator.
proof fn lemma_dec_colon_free(s: Seq<u8>)
    requires
        forall|i: int| 0 <= i < s.len() ==> is_dec(#[trigger] s[i]),
    ensures
        colon_free(s),
{
    assert forall|i: int| 0 <= i < s.len() implies #[trigger] s[i] != 58 by {
        assert(is_dec(s[i]));
    }
}

/// Encodes a page into an address with the given coordinate label. Fails,
/// with `InvalidPageLength`, exactly when the text does not have
/// `LENGTH_OF_PAGE` characters.
pub fn encode_address(page: &Vec<u8>, coordinate: &LocationCoordinate) -> (r: Result<
    Vec<u8>,
    BabelError,
>)
    requires
        coordinate.wf(),
    ensures
        r is Ok <==> page@.len() == LENGTH_OF_PAGE,
        r is Err ==> r->Err_0 == BabelError::InvalidPageLength,
        r is Ok ==> is_address_for(r->Ok_0@, page@, *coordinate),
{
    let n = match to_number(page) {
        Ok(n) => n,
        Err(e) => {
            return Err(e);
        },
    };
    let li = coordinate.loc_int();
    let libig = big_from_u32(li);
    let mult = multiplier();
    let shifted = big_mul(&libig, &mult);
    let combined = big_add(&n, &shifted);
    proof {
        lemma_page_digits_ok(page@);
        lemma_digits_val_bounds(page_digits(page@), 29);
        lemma_pow_positive(30, LENGTH_OF_PAGE as nat);
        lemma_mul_nonnegative(coordinate.loc_int_spec(), pow(30, LENGTH_OF_PAGE as nat));
    }
    let d = int_to_base36(&combined);
    proof {
        reveal(pow);
        assert(pow(10, 0nat) == 1);
        assert(pow(10, 1nat) == 10);
        assert(pow(10, 2nat) == 100);
        assert(pow(10, 3nat) == 1000);
    }
    let w = u64_to_dec_fixed(coordinate.wall as u64, 1);
    let s = u64_to_dec_fixed(coordinate.shelf as u64, 1);
    let v = u64_to_dec_fixed(coordinate.volume as u64, 2);
    let g = u64_to_dec_fixed(coordinate.page_index as u64, 3);
    let mut out = d;
    let ghost dd = out@;
    out.push(58);
    push_all(&mut out, &w);
    out.push(58);
    push_all(&mut out, &s);
    out.push(58);
    push_all(&mut out, &v);
    out.push(58);
    push_all(&mut out, &g);
    proof {
        assert(out@ =~= compose_addr(dd, w@, s@, v@, g@));
        assert(address_parts_for(dd, w@, s@, v@, g@, page@, *coordinate));
    }
    Ok(out)
}

/// Decodes the five fields of an address; see `decode_outcome`.
fn decode_fields(
    fd: &Vec<u8>,
    fw: &Vec<u8>,
    fs: &Vec<u8>,
    fv: &Vec<u8>,
    fg: &Vec<u8>,
) -> (r: Result<Vec<u8>, BabelError>)
    ensures
        decode_outcome(fd@, fw@, fs@, fv@, fg@, r),
        r is Ok ==> wf_page(r->Ok_0@),
{
    let combined = match base36_to_int(fd) {
        Ok(x) => x,
        Err(_) => {
            return Err(BabelError::InvalidAddress);
        },
    };
    let wv = match dec_to_u64(fw) {
        Some(x) => x,
        None => {
            return Err(BabelError::InvalidAddress);
        },
    };
    let sv = match dec_to_u64(fs) {
        Some(x) => x,
        None => {
            return Err(BabelError::InvalidAddress);
        },
    };
    let vv = match dec_to_u64(fv) {
        Some(x) => x,
        None => {
            return Err(BabelError::InvalidAddress);
        },
    };
    let gv = match dec_to_u64(fg) {
        Some(x) => x,
        None => {
            return Err(BabelError::InvalidAddress);
        },
    };
    if wv > 9 || sv > 9 || vv > 99 || gv > 999 {
        return Err(BabelError::InvalidAddress);
    }
    let li: u64 = gv * 10000 + vv * 100 + sv * 10 + wv;
    let libig = big_from_u32(li as u32);
    let mult = multiplier();
    let shifted = big_mul(&libig, &mult);
    let pn = big_sub(&combined, &shifted);
    let zero = big_from_u32(0);
    if big_lt(&pn, &zero) {
        return Err(BabelError::InvalidAddress);
    }
    if !big_lt(&pn, &mult) {
        return Err(BabelError::InvalidAddress);
    }
    let twenty_nine = big_from_u32(29);
    let page_cap = big_pow(&twenty_nine, LENGTH_OF_PAGE as u32);
    if !big_lt(&pn, &page_cap) {
        return Err(BabelError::VerificationFailure);
    }
    let page = to_page(&pn);
    Ok(page)
}

/// Decodes an address back into the page it renders; see `decode_post` for
/// the full statement.
pub fn decode_address(addr: &Vec<u8>) -> (r: Result<Vec<u8>, BabelError>)
    ensures
        decode_post(addr@, r),
        r is Ok ==> wf_page(r->Ok_0@),
{
    let (fd, fw, fs, fv, fg) = match split5(addr) {
        Ok(t) => t,
        Err(e) => {
            proof {
                assert forall|d: Seq<u8>, w: Seq<u8>, s: Seq<u8>, v: Seq<u8>, g: Seq<u8>|
                    (colon_free(d) && colon_free(w) && colon_free(s) && colon_free(v) && colon_free(
                        g,
                    ) && addr@ == #[trigger] compose_addr(d, w, s, v, g)) implies decode_outcome(
                    d,
                    w,
                    s,
                    v,
                    g,
                    Err::<Vec<u8>, BabelError>(BabelError::InvalidAddress),
                ) by {
                    assert(has_five_fields(addr@));
                }
            }
            return Err(e);
        },
    };
    let r = decode_fields(&fd, &fw, &fs, &fv, &fg);
    proof {
        assert(has_five_fields(addr@));
        assert forall|d: Seq<u8>, w: Seq<u8>, s: Seq<u8>, v: Seq<u8>, g: Seq<u8>|
            (colon_free(d) && colon_free(w) && colon_free(s) && colon_free(v) && colon_free(g)
                && addr@ == #[trigger] compose_addr(d, w, s, v, g)) implies decode_outcome(
            d,
            w,
            s,
            v,
            g,
            r,
        ) by {
            lemma_decomposition_unique(d, w, s, v, g, fd@, fw@, fs@, fv@, fg@);
        }
    }
    r
}

/// The address round trip: decoding the address encoding produced for a
/// well-formed page with a valid coordinate succeeds and reproduces the page
/// exactly. `is_address_for` is what `encode_address` ensures of its result,
/// `decode_post` what `decode_address` ensures of its own.
pub proof fn lemma_address_round_trip(
    addr: Seq<u8>,
    p: Seq<u8>,
    c: LocationCoordinate,
    r: Result<Vec<u8>, BabelError>,
)
    requires
        wf_page(p),
        c.wf(),
        is_address_for(addr, p, c),
        decode_post(addr, r),
    ensures
        r is Ok,
        r->Ok_0@ == p,
{
    let (d, w, s, v, g) = choose|d: Seq<u8>, w: Seq<u8>, s: Seq<u8>, v: Seq<u8>, g: Seq<u8>|
        address_parts_for(d, w, s, v, g, p, c) && addr == #[trigger] compose_addr(d, w, s, v, g);
    lemma_canon_colon_free(d);
    lemma_dec_colon_free(w);
    lemma_dec_colon_free(s);
    lemma_dec_colon_free(v);
    lemma_dec_colon_free(g);
    assert(decode_outcome(d, w, s, v, g, r));
    assert(field_values_ok(w, s, v, g));
    assert(packed_loc(w, s, v, g) == c.loc_int_spec());
    let pn = b36_value(d) - packed_loc(w, s, v, g) * pow(30, LENGTH_OF_PAGE as nat);
    assert(pn == page_value(p));
    lemma_page_value_bounds(p);
    crate::digits::lemma_pow_base_strict(29, 30, LENGTH_OF_PAGE as nat);
    lemma_page_round_trip(p, r->Ok_0@);
}

/// Whether an address decodes to page text `q`.
pub open spec fn decodes_to(addr: Seq<u8>, q: Seq<u8>) -> bool {
    exists|d: Seq<u8>, w: Seq<u8>, s: Seq<u8>, v: Seq<u8>, g: Seq<u8>|
        {
            &&& colon_free(d) && colon_free(w) && colon_free(s) && colon_free(v) && colon_free(g)
            &&& addr == #[trigger] compose_addr(d, w, s, v, g)
            &&& wf_b36(d) && field_values_ok(w, s, v, g)
            &&& 0 <= b36_value(d) - packed_loc(w, s, v, g) * pow(30, LENGTH_OF_PAGE as nat) < pow(
                29,
                LENGTH_OF_PAGE as nat,
            )
            &&& wf_page(q)
            &&& page_value(q) == b36_value(d) - packed_loc(w, s, v, g) * pow(
                30,
                LENGTH_OF_PAGE as nat,
            )
        }
}

/// An address encoded from a well-formed page decodes, namely to that page.
pub proof fn lemma_address_decodes(addr: Seq<u8>, p: Seq<u8>, c: LocationCoordinate)
    requires
        wf_page(p),
        c.wf(),
        is_address_for(addr, p, c),
    ensures
        decodes_to(addr, p),
{
    let (d, w, s, v, g) = choose|d: Seq<u8>, w: Seq<u8>, s: Seq<u8>, v: Seq<u8>, g: Seq<u8>|
        address_parts_for(d, w, s, v, g, p, c) && addr == #[trigger] compose_addr(d, w, s, v, g);
    lemma_canon_colon_free(d);
    lemma_dec_colon_free(w);
    lemma_dec_colon_free(s);
    lemma_dec_colon_free(v);
    lemma_dec_colon_free(g);
    assert(packed_loc(w, s, v, g) == c.loc_int_spec());
    lemma_page_value_bounds(p);
    assert(b36_value(d) - packed_loc(w, s, v, g) * pow(30, LENGTH_OF_PAGE as nat) == page_value(
        p,
    ));
}

/// What a decode result says of the existence of a decoded page: a success
/// decodes to its page, a failure means no page decodes from the address.
pub proof fn lemma_decode_post_decodes(addr: Seq<u8>, r: Result<Vec<u8>, BabelError>)
    requires
        decode_post(addr, r),
    ensures
        r is Ok ==> decodes_to(addr, r->Ok_0@),
        r is Err ==> !exists|q: Seq<u8>| #[trigger] decodes_to(addr, q),
{
    if r is Ok {
        assert(has_five_fields(addr));
        let (d, w, s, v, g) = choose|d: Seq<u8>, w: Seq<u8>, s: Seq<u8>, v: Seq<u8>, g: Seq<u8>|
            colon_free(d) && colon_free(w) && colon_free(s) && colon_free(v) && colon_free(g)
                && addr == #[trigger] compose_addr(d, w, s, v, g);
        assert(decode_outcome(d, w, s, v, g, r));
    } else {
        if exists|q: Seq<u8>| #[trigger] decodes_to(addr, q) {
            let q = choose|q: Seq<u8>| #[trigger] decodes_to(addr, q);
            let (d, w, s, v, g) = choose|d: Seq<u8>, w: Seq<u8>, s: Seq<u8>, v: Seq<u8>, g: Seq<u8>|
                {
                    &&& colon_free(d) && colon_free(w) && colon_free(s) && colon_free(v)
                        && colon_free(g)
                    &&& addr == #[trigger] compose_addr(d, w, s, v, g)
                    &&& wf_b36(d) && field_values_ok(w, s, v, g)
                    &&& 0 <= b36_value(d) - packed_loc(w, s, v, g) * pow(
                        30,
                        LENGTH_OF_PAGE as nat,
                    ) < pow(29, LENGTH_OF_PAGE as nat)
                    &&& wf_page(q)
                    &&& page_value(q) == b36_value(d) - packed_loc(w, s, v, g) * pow(
                        30,
                        LENGTH_OF_PAGE as nat,
                    )
                };
            crate::digits::lemma_pow_base_strict(29, 30, LENGTH_OF_PAGE as nat);
            assert(decode_outcome(d, w, s, v, g, r));
            assert(false);
        }
    }
}

/// An address decodes to at most one page: fixed-length base-29 notation and
/// the field decomposition are both unique.
pub proof fn lemma_decodes_to_unique(addr: Seq<u8>, q1: Seq<u8>, q2: Seq<u8>)
    requires
        decodes_to(addr, q1),
        decodes_to(addr, q2),
    ensures
        q1 == q2,
{
    let (d, w, s, v, g) = choose|d: Seq<u8>, w: Seq<u8>, s: Seq<u8>, v: Seq<u8>, g: Seq<u8>|
        {
            &&& colon_free(d) && colon_free(w) && colon_free(s) && colon_free(v) && colon_free(g)
            &&& addr == #[trigger] compose_addr(d, w, s, v, g)
            &&& wf_b36(d) && field_values_ok(w, s, v, g)
            &&& 0 <= b36_value(d) - packed_loc(w, s, v, g) * pow(30, LENGTH_OF_PAGE as nat) < pow(
                29,
                LENGTH_OF_PAGE as nat,
            )
            &&& wf_page(q1)
            &&& page_value(q1) == b36_value(d) - packed_loc(w, s, v, g) * pow(
                30,
                LENGTH_OF_PAGE as nat,
            )
        };
    let (d2, w2, s2, v2, g2) = choose|d2: Seq<u8>, w2: Seq<u8>, s2: Seq<u8>, v2: Seq<u8>, g2: Seq<
        u8,
    >|
        {
            &&& colon_free(d2) && colon_free(w2) && colon_free(s2) && colon_free(v2) && colon_free(
                g2,
            )
            &&& addr == #[trigger] compose_addr(d2, w2, s2, v2, g2)
            &&& wf_b36(d2) && field_values_ok(w2, s2, v2, g2)
            &&& 0 <= b36_value(d2) - packed_loc(w2, s2, v2, g2) * pow(30, LENGTH_OF_PAGE as nat)
                < pow(29, LENGTH_OF_PAGE as nat)
            &&& wf_page(q2)
            &&& page_value(q2) == b36_value(d2) - packed_loc(w2, s2, v2, g2) * pow(
                30,
                LENGTH_OF_PAGE as nat,
            )
        };
    lemma_decomposition_unique(d, w, s, v, g, d2, w2, s2, v2, g2);
    lemma_page_round_trip(q1, q2);
}

/// The self-check of the codec: an address is verified against its source
/// page by decoding it and comparing, both sides stripped of trailing
/// padding.
pub fn verify_page(original: &Vec<u8>, addr: &Vec<u8>) -> (ok: bool)
    ensures
        ok <==> exists|q: Seq<u8>|
            #[trigger] decodes_to(addr@, q) && strip_pad(q) == strip_pad(original@),
{
    let decoded = match decode_address(addr) {
        Ok(p) => p,
        Err(e) => {
            proof {
                if exists|q: Seq<u8>|
                    #[trigger] decodes_to(addr@, q) && strip_pad(q) == strip_pad(original@) {
                    let q = choose|q: Seq<u8>|
                        #[trigger] decodes_to(addr@, q) && strip_pad(q) == strip_pad(original@);
                    let (d, w, s, v, g) = choose|
                        d: Seq<u8>,
                        w: Seq<u8>,
                        s: Seq<u8>,
                        v: Seq<u8>,
                        g: Seq<u8>,
                    |
                        {
                            &&& colon_free(d) && colon_free(w) && colon_free(s) && colon_free(v)
                                && colon_free(g)
                            &&& addr@ == #[trigger] compose_addr(d, w, s, v, g)
                            &&& wf_b36(d) && field_values_ok(w, s, v, g)
                            &&& 0 <= b36_value(d) - packed_loc(w, s, v, g) * pow(
                                30,
                                LENGTH_OF_PAGE as nat,
                            ) < pow(29, LENGTH_OF_PAGE as nat)
                            &&& wf_page(q)
                            &&& page_value(q) == b36_value(d) - packed_loc(w, s, v, g) * pow(
                                30,
                                LENGTH_OF_PAGE as nat,
                            )
                        };
                    crate::digits::lemma_pow_base_strict(29, 30, LENGTH_OF_PAGE as nat);
                    assert(decode_outcome(d, w, s, v, g, Err::<Vec<u8>, BabelError>(e)));
                    assert(false);
                }
            }
            return false;
        },
    };
    let a = trim_pad(&decoded);
    let b = trim_pad(original);
    let eq = bytes_eq(&a, &b);
    proof {
        let (d, w, s, v, g) = choose|d: Seq<u8>, w: Seq<u8>, s: Seq<u8>, v: Seq<u8>, g: Seq<u8>|
            colon_free(d) && colon_free(w) && colon_free(s) && colon_free(v) && colon_free(g)
                && addr@ == #[trigger] compose_addr(d, w, s, v, g);
        assert(decode_outcome(d, w, s, v, g, Ok::<Vec<u8>, BabelError>(decoded)));
        assert(decodes_to(addr@, decoded@));
        if eq {
            assert(strip_pad(decoded@) == strip_pad(original@));
        } else {
            if exists|q: Seq<u8>|
                #[trigger] decodes_to(addr@, q) && strip_pad(q) == strip_pad(original@) {
                let q = choose|q: Seq<u8>|
                    #[trigger] decodes_to(addr@, q) && strip_pad(q) == strip_pad(original@);
                let (d2, w2, s2, v2, g2) = choose|
                    d2: Seq<u8>,
                    w2: Seq<u8>,
                    s2: Seq<u8>,
                    v2: Seq<u8>,
                    g2: Seq<u8>,
                |
                    {
                        &&& colon_free(d2) && colon_free(w2) && colon_free(s2) && colon_free(v2)
                            && colon_free(g2)
                        &&& addr@ == #[trigger] compose_addr(d2, w2, s2, v2, g2)
                        &&& wf_b36(d2) && field_values_ok(w2, s2, v2, g2)
                        &&& 0 <= b36_value(d2) - packed_loc(w2, s2, v2, g2) * pow(
                            30,
                            LENGTH_OF_PAGE as nat,
                        ) < pow(29, LENGTH_OF_PAGE as nat)
                        &&& wf_page(q)
                        &&& page_value(q) == b36_value(d2) - packed_loc(w2, s2, v2, g2) * pow(
                            30,
                            LENGTH_OF_PAGE as nat,
                        )
                    };
                lemma_decomposition_unique(d2, w2, s2, v2, g2, d, w, s, v, g);
                lemma_page_round_trip(q, decoded@);
                assert(false);
            }
        }
    }
    eq
}

/// Compares two byte strings.
fn bytes_eq(a: &Vec<u8>, b: &Vec<u8>) -> (r: bool)
    ensures
        r <==> a@ == b@,
{
    if a.len() != b.len() {
        proof {
            assert(a@.len() != b@.len());
        }
        return false;
    }
    let mut i: usize = 0;
    while i < a.len()
        invariant
            i <= a@.len(),
            a@.len() == b@.len(),
            forall|j: int| 0 <= j < i ==> a@[j] == #[trigger] b@[j],
        decreases a@.len() - i,
    {
        if a[i] != b[i] {
            proof {
                assert(a@[i as int] != b@[i as int]);
            }
            return false;
        }
        i += 1;
    }
    proof {
        assert(a@ =~= b@);
    }
    true
}

} // verus!
