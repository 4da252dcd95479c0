//! The byte-text codec: every byte becomes two lowercase letters, the first
//! carrying the byte's quotient by 26 and the second its remainder, so the
//! first letter of a pair ranges over `a-j` and decoding recovers the byte
//! exactly.

use vstd::prelude::*;
use vstd::arithmetic::div_mod::lemma_fundamental_div_mod;

use crate::error::BabelError;

verus! {

/// A lowercase letter.
pub open spec fn is_low(c: u8) -> bool {
    97 <= c && c <= 122
}

/// The two-letter code of a byte.
pub open spec fn byte_code(b: u8) -> Seq<u8> {
    seq![(97 + b / 26) as u8, (97 + b % 26) as u8]
}

/// The transcription of a byte string: the codes of its bytes in order.
pub open spec fn babel_of(bs: Seq<u8>) -> Seq<u8>
    decreases bs.len(),
{
    if bs.len() == 0 {
        Seq::empty()
    } else {
        babel_of(bs.drop_last()) + byte_code(bs.last())
    }
}

/// The byte a pair of letters transcribes.
pub open spec fn pair_val(c0: u8, c1: u8) -> int {
    (c0 - 97) * 26 + (c1 - 97)
}

/// A pair of letters that is the code of some byte.
pub open spec fn pair_ok(c0: u8, c1: u8) -> bool {
    is_low(c0) && is_low(c1) && pair_val(c0, c1) <= 255
}

/// Every pair of the text transcribes a byte; a trailing unpaired byte is
/// ignored.
pub open spec fn wf_babel(t: Seq<u8>) -> bool {
    forall|i: int| 0 <= i < t.len() / 2 ==> pair_ok(#[trigger] t[2 * i], t[2 * i + 1])
}

/// The bytes a text transcribes, read pair by pair.
pub open spec fn bytes_of(t: Seq<u8>) -> Seq<u8>
    decreases t.len(),
{
    if t.len() < 2 {
        Seq::empty()
    } else {
        seq![pair_val(t[0], t[1]) as u8] + bytes_of(t.skip(2))
    }
}

/// Transcribes bytes into babel text, two letters per byte.
pub fn encode(bytes: &Vec<u8>) -> (r: Vec<u8>)
    ensures
        r@ == babel_of(bytes@),
        r@.len() == 2 * bytes@.len(),
{
    let mut r: Vec<u8> = Vec::new();
    let mut i: usize = 0;
    proof {
        assert(babel_of(bytes@.take(0)) =~= Seq::<u8>::empty());
    }
    while i < bytes.len()
        invariant
            i <= bytes@.len(),
            r@ == babel_of(bytes@.take(i as int)),
            r@.len() == 2 * i,
        decreases bytes@.len() - i,
    {
        let b = bytes[i];
        r.push(97 + b / 26);
        r.push(97 + b % 26);
        proof {
            let t1 = bytes@.take(i as int + 1);
            assert(t1.drop_last() =~= bytes@.take(i as int));
            assert(t1.last() == bytes@[i as int]);
            assert(r@ =~= babel_of(bytes@.take(i as int)) + byte_code(bytes@[i as int]));
        }
        i += 1;
    }
    proof {
        assert(bytes@.take(bytes@.len() as int) =~= bytes@);
    }
    r
}

/// Decodes babel text back into bytes. Fails, with `InvalidAlphabet`,
/// exactly when some pair of the text is not the code of any byte; a
/// trailing unpaired byte is ignored.
pub fn decode(text: &Vec<u8>) -> (r: Result<Vec<u8>, BabelError>)
    ensures
        r is Ok <==> wf_babel(text@),
        r is Err ==> r->Err_0 == BabelError::InvalidAlphabet,
        r is Ok ==> r->Ok_0@ == bytes_of(text@),
{
    let n = text.len() / 2;
    let mut out: Vec<u8> = Vec::new();
    let mut k: usize = 0;
    proof {
        assert(text@.skip(0) =~= text@);
    }
    while k < n
        invariant
            k <= n,
            n == text@.len() / 2,
            text@.len() <= usize::MAX,
            out@.len() == k,
            forall|j: int| 0 <= j < k ==> pair_ok(#[trigger] text@[2 * j], text@[2 * j + 1]),
            out@ + bytes_of(text@.skip(2 * k as int)) == bytes_of(text@),
        decreases n - k,
    {
        proof {
            assert(2 * (text@.len() as int / 2) <= text@.len() as int);
            assert(2 * (k as int) + 1 < text@.len());
        }
        let c0 = text[2 * k];
        let c1 = text[2 * k + 1];
        if !(97 <= c0 && c0 <= 122 && 97 <= c1 && c1 <= 122) {
            return Err(BabelError::InvalidAlphabet);
        }
        let v: u16 = (c0 - 97) as u16 * 26 + (c1 - 97) as u16;
        if v > 255 {
            return Err(BabelError::InvalidAlphabet);
        }
        out.push(v as u8);
        proof {
            let rest = text@.skip(2 * k as int);
            assert(rest.len() >= 2);
            assert(rest[0] == text@[2 * k as int]);
            assert(rest[1] == text@[2 * k as int + 1]);
            assert(rest.skip(2) =~= text@.skip(2 * (k as int + 1)));
            assert(bytes_of(rest) == seq![pair_val(rest[0], rest[1]) as u8] + bytes_of(
                rest.skip(2),
            ));
            assert(out@ + bytes_of(text@.skip(2 * (k as int + 1))) =~= (out@.drop_last()
                + bytes_of(rest)));
        }
        k += 1;
    }
    proof {
        assert(bytes_of(text@.skip(2 * n as int)) =~= Seq::<u8>::empty());
        assert(out@ + Seq::<u8>::empty() =~= out@);
    }
    Ok(out)
}

/// Every character of a transcription is a lowercase letter.
pub proof fn lemma_babel_low(bs: Seq<u8>)
    ensures
        forall|i: int| 0 <= i < babel_of(bs).len() ==> is_low(#[trigger] babel_of(bs)[i]),
    decreases bs.len(),
{
    if bs.len() > 0 {
        lemma_babel_low(bs.drop_last());
        let pre = babel_of(bs.drop_last());
        let code = byte_code(bs.last());
        assert forall|i: int| 0 <= i < babel_of(bs).len() implies is_low(
            #[trigger] babel_of(bs)[i],
        ) by {
            if i < pre.len() {
                assert(babel_of(bs)[i] == pre[i]);
            } else {
                assert(babel_of(bs)[i] == code[i - pre.len()]);
            }
        }
    }
}

/// Transcription appended to transcription decodes piecewise.
proof fn lemma_bytes_of_append(x: Seq<u8>, y: Seq<u8>)
    requires
        x.len() % 2 == 0,
    ensures
        bytes_of(x + y) == bytes_of(x) + bytes_of(y),
    decreases x.len(),
{
    if x.len() == 0 {
        assert(x + y =~= y);
        assert(bytes_of(x) + bytes_of(y) =~= bytes_of(y));
    } else {
        assert(x.len() >= 2);
        assert((x + y).skip(2) =~= x.skip(2) + y);
        assert((x + y)[0] == x[0]);
        assert((x + y)[1] == x[1]);
        lemma_bytes_of_append(x.skip(2), y);
        assert(seq![pair_val(x[0], x[1]) as u8] + (bytes_of(x.skip(2)) + bytes_of(y)) =~= (seq![
            pair_val(x[0], x[1]) as u8
        ] + bytes_of(x.skip(2))) + bytes_of(y));
    }
}

/// The byte round trip: the transcription of any byte string is well formed
/// and decodes back to exactly that string.
pub proof fn lemma_byte_round_trip(bs: Seq<u8>)
    ensures
        babel_of(bs).len() == 2 * bs.len(),
        wf_babel(babel_of(bs)),
        bytes_of(babel_of(bs)) == bs,
    decreases bs.len(),
{
    if bs.len() == 0 {
        assert(bytes_of(babel_of(bs)) =~= bs);
    } else {
        let pre = bs.drop_last();
        let b = bs.last();
        lemma_byte_round_trip(pre);
        let t = babel_of(pre);
        let code = byte_code(b);
        lemma_fundamental_div_mod(b as int, 26);
        assert(pair_ok(code[0], code[1]));
        assert(pair_val(code[0], code[1]) == b as int);
        assert forall|i: int|
            0 <= i < (t + code).len() / 2 implies pair_ok(
            #[trigger] (t + code)[2 * i],
            (t + code)[2 * i + 1],
        ) by {
            if i < t.len() / 2 {
                assert((t + code)[2 * i] == t[2 * i]);
                assert((t + code)[2 * i + 1] == t[2 * i + 1]);
            } else {
                assert((t + code)[2 * i] == code[0]);
                assert((t + code)[2 * i + 1] == code[1]);
            }
        }
        lemma_bytes_of_append(t, code);
        assert(code.skip(2) =~= Seq::<u8>::empty());
        assert(bytes_of(Seq::<u8>::empty()) =~= Seq::<u8>::empty());
        assert(bytes_of(code) == seq![pair_val(code[0], code[1]) as u8] + bytes_of(code.skip(2)));
        assert(bytes_of(code) =~= seq![b]);
        assert(bytes_of(babel_of(bs)) =~= bs);
    }
}

} // verus!
