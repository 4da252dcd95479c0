//! The container that carries an encoded file: the original extension, the
//! original byte length, and one address per page, in page order. Rendered as
//! lines, it is the schema of the line-oriented container format; reading and
//! writing the lines themselves is left to the caller.

use vstd::prelude::*;

use crate::decimal::{wf_dec, dec_value, dec_to_u64, u64_to_dec};
use crate::fields::views;

verus! {

/// An encoded file: extension, original byte length, and the ordered
/// addresses of its pages.
pub struct BabelFile {
    pub extension: Vec<u8>,
    pub length: usize,
    pub addresses: Vec<Vec<u8>>,
}

/// Copies a byte string.
fn copy_bytes(v: &Vec<u8>) -> (r: Vec<u8>)
    ensures
        r@ == v@,
{
    let mut r: Vec<u8> = Vec::new();
    let mut i: usize = 0;
    while i < v.len()
        invariant
            i <= v@.len(),
            r@ == v@.take(i as int),
        decreases v@.len() - i,
    {
        r.push(v[i]);
        proof {
            assert(v@.take(i as int + 1) =~= v@.take(i as int).push(v@[i as int]));
        }
        i += 1;
    }
    proof {
        assert(v@.take(v@.len() as int) =~= v@);
    }
    r
}

/// Renders a file as container lines: the extension, the byte length in
/// canonical decimal, then one address per line in page order.
pub fn render_lines(file: &BabelFile) -> (r: Vec<Vec<u8>>)
    ensures
        r@.len() == 2 + file.addresses@.len(),
        views(r@)[0] == file.extension@,
        wf_dec(views(r@)[1]) && dec_value(views(r@)[1]) == file.length as int,
        forall|i: int|
            0 <= i < file.addresses@.len() ==> views(r@)[2 + i] == #[trigger] views(
                file.addresses@,
            )[i],
{
    let mut r: Vec<Vec<u8>> = Vec::new();
    r.push(copy_bytes(&file.extension));
    r.push(u64_to_dec(file.length as u64));
    let mut i: usize = 0;
    while i < file.addresses.len()
        invariant
            i <= file.addresses@.len(),
            r@.len() == 2 + i,
            views(r@)[0] == file.extension@,
            wf_dec(views(r@)[1]) && dec_value(views(r@)[1]) == file.length as int,
            forall|j: int|
                0 <= j < i ==> views(r@)[2 + j] == #[trigger] views(file.addresses@)[j],
        decreases file.addresses@.len() - i,
    {
        let ghost old_r = r@;
        r.push(copy_bytes(&file.addresses[i]));
        proof {
            assert forall|j: int|
                0 <= j < i as int + 1 implies views(r@)[2 + j] == #[trigger] views(
                file.addresses@,
            )[j] by {
                if j < i as int {
                    assert(views(r@)[2 + j] == views(old_r)[2 + j]);
                }
            }
            assert(views(r@)[0] == views(old_r)[0]);
            assert(views(r@)[1] == views(old_r)[1]);
        }
        i += 1;
    }
    r
}

/// Parses container lines back into a file. Returns `None` exactly when
/// there are fewer than two lines or the second is not a decimal byte count
/// that fits the machine.
pub fn parse_lines(lines: &Vec<Vec<u8>>) -> (r: Option<BabelFile>)
    ensures
        r is Some <==> lines@.len() >= 2 && wf_dec(views(lines@)[1]) && dec_value(views(lines@)[1])
            <= usize::MAX,
        r is Some ==> {
            &&& r->0.extension@ == views(lines@)[0]
            &&& r->0.length as int == dec_value(views(lines@)[1])
            &&& views(r->0.addresses@) == views(lines@).skip(2)
        },
{
    if lines.len() < 2 {
        return None;
    }
    let length64 = match dec_to_u64(&lines[1]) {
        Some(x) => x,
        None => {
            return None;
        },
    };
    if length64 > usize::MAX as u64 {
        return None;
    }
    let length = length64 as usize;
    let extension = copy_bytes(&lines[0]);
    let mut addresses: Vec<Vec<u8>> = Vec::new();
    let mut i: usize = 2;
    while i < lines.len()
        invariant
            2 <= i <= lines@.len(),
            addresses@.len() == i - 2,
            forall|j: int|
                0 <= j < addresses@.len() ==> #[trigger] views(addresses@)[j] == views(
                    lines@,
                )[2 + j],
        decreases lines@.len() - i,
    {
        let ghost old_a = addresses@;
        addresses.push(copy_bytes(&lines[i]));
        proof {
            assert forall|j: int|
                0 <= j < addresses@.len() implies #[trigger] views(addresses@)[j] == views(
                lines@,
            )[2 + j] by {
                if j < old_a.len() {
                    assert(views(addresses@)[j] == views(old_a)[j]);
                }
            }
        }
        i += 1;
    }
    proof {
        assert(views(addresses@) =~= views(lines@).skip(2));
    }
    Some(BabelFile { extension, length, addresses })
}

} // verus!
