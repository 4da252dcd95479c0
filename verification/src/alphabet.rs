//! The 29-symbol page alphabet: the lowercase letters followed by comma,
//! space and period, in that order. `'.'`, the greatest symbol, doubles as
//! the padding sentinel at the tail of a file's final page.

use vstd::prelude::*;

verus! {

/// The padding sentinel.
pub const PAD_CHAR: u8 = 46;

/// Whether a byte is one of the 29 page symbols.
pub open spec fn is_sym(c: u8) -> bool {
    (97 <= c && c <= 122) || c == 44 || c == 32 || c == 46
}

/// The alphabet index of a page symbol: `a..z` map to `0..25`, then comma,
/// space and period follow.
pub open spec fn sym_index(c: u8) -> int {
    if 97 <= c && c <= 122 {
        c - 97
    } else if c == 44 {
        26
    } else if c == 32 {
        27
    } else {
        28
    }
}

/// Distinct page symbols have distinct alphabet indices.
pub proof fn lemma_sym_index_injective(c: u8, d: u8)
    requires
        is_sym(c),
        is_sym(d),
        sym_index(c) == sym_index(d),
    ensures
        c == d,
{
}

/// The alphabet index of a symbol, or `None` for a byte outside the
/// alphabet.
pub fn symbol_index(c: u8) -> (r: Option<u8>)
    ensures
        r is Some <==> is_sym(c),
        r is Some ==> r->0 as int == sym_index(c) && r->0 < 29,
{
    if 97 <= c && c <= 122 {
        Some(c - 97)
    } else if c == 44 {
        Some(26)
    } else if c == 32 {
        Some(27)
    } else if c == 46 {
        Some(28)
    } else {
        None
    }
}

/// The string with every trailing padding sentinel removed.
pub open spec fn strip_pad(s: Seq<u8>) -> Seq<u8>
    decreases s.len(),
{
    if s.len() > 0 && s.last() == 46 {
        strip_pad(s.drop_last())
    } else {
        s
    }
}

/// Stripping reaches at most the padding: appending sentinels does not
/// change the stripped string.
pub proof fn lemma_strip_pad_padded(s: Seq<u8>, k: nat)
    ensures
        strip_pad(s + Seq::new(k, |i: int| 46u8)) == strip_pad(s),
    decreases k,
{
    let pads = Seq::new(k, |i: int| 46u8);
    if k == 0 {
        assert(s + pads =~= s);
    } else {
        let t = s + pads;
        assert(t.last() == 46);
        assert(t.drop_last() =~= s + Seq::new((k - 1) as nat, |i: int| 46u8));
        lemma_strip_pad_padded(s, (k - 1) as nat);
    }
}

/// A string without the sentinel is left unchanged.
pub proof fn lemma_strip_pad_free(s: Seq<u8>)
    requires
        forall|i: int| 0 <= i < s.len() ==> #[trigger] s[i] != 46,
    ensures
        strip_pad(s) == s,
{
}

/// Removes the trailing padding sentinels of a text.
pub fn trim_pad(s: &Vec<u8>) -> (r: Vec<u8>)
    ensures
        r@ == strip_pad(s@),
{
    let mut e: usize = s.len();
    proof {
        assert(s@.take(s@.len() as int) =~= s@);
    }
    while e > 0 && s[e - 1] == 46
        invariant
            e <= s@.len(),
            strip_pad(s@) == strip_pad(s@.take(e as int)),
        decreases e,
    {
        proof {
            assert(s@.take(e as int).drop_last() =~= s@.take(e as int - 1));
        }
        e -= 1;
    }
    proof {
        assert(strip_pad(s@.take(e as int)) == s@.take(e as int));
    }
    let mut r: Vec<u8> = Vec::new();
    let mut i: usize = 0;
    while i < e
        invariant
            i <= e <= s@.len(),
            r@ == s@.take(i as int),
        decreases e - i,
    {
        r.push(s[i]);
        proof {
            assert(s@.take(i as int + 1) =~= s@.take(i as int).push(s@[i as int]));
        }
        i += 1;
    }
    proof {
        assert(r@ =~= s@.take(e as int));
    }
    r
}

/// The page symbol with the given alphabet index.
pub fn index_symbol(i: u8) -> (c: u8)
    requires
        i < 29,
    ensures
        is_sym(c),
        sym_index(c) == i as int,
{
    if i < 26 {
        97 + i
    } else if i == 26 {
        44
    } else if i == 27 {
        32
    } else {
        46
    }
}

} // verus!
