//! The batch processor: transcribes a whole file into babel text, cuts it
//! into pages, encodes every page into an address (self-verifying each one),
//! and decodes an ordered address list back into the original bytes.

use vstd::prelude::*;

use crate::address::{
    encode_address, decode_address, verify_page, decodes_to, lemma_address_decodes,
    lemma_decode_post_decodes, lemma_decodes_to_unique,
};
use crate::alphabet::is_sym;
use crate::byte_text::{babel_of, bytes_of, wf_babel, lemma_babel_low, lemma_byte_round_trip};
use crate::chunker::{
    chunk_pages, join_pages, split_pages, join_decoded, lemma_chunk_pages_shape, lemma_join_chunk,
};
use crate::container::BabelFile;
use crate::error::BabelError;
use crate::fields::views;
use crate::location::CoordinateSource;
use crate::page::{LENGTH_OF_PAGE, wf_page};

verus! {

/// The page an address decodes to; meaningful when one exists, and then
/// unique.
pub open spec fn decoded_page(addr: Seq<u8>) -> Seq<u8> {
    choose|q: Seq<u8>| decodes_to(addr, q)
}

/// Every address of the list decodes to some page; `decoded_page` picks the
/// page, which is unique.
pub open spec fn all_decodable(addrs: Seq<Seq<u8>>) -> bool {
    forall|i: int|
        0 <= i < addrs.len() ==> #[trigger] decodes_to(addrs[i], decoded_page(addrs[i]))
}

/// The pages an address list decodes to, in order.
pub open spec fn decoded_pages(addrs: Seq<Seq<u8>>) -> Seq<Seq<u8>> {
    Seq::new(addrs.len(), |i: int| decoded_page(addrs[i]))
}

/// The bytes an address list reassembles into, before truncation: pages
/// joined with the final padding stripped, then read pair by pair.
pub open spec fn reassembled(addrs: Seq<Seq<u8>>) -> Seq<u8> {
    bytes_of(join_pages(decoded_pages(addrs)))
}

/// Pages cut from a transcription are well formed: full length, every
/// character a letter or the padding sentinel.
proof fn lemma_chunks_wf(bs: Seq<u8>)
    ensures
        forall|i: int|
            0 <= i < chunk_pages(babel_of(bs)).len() ==> wf_page(
                #[trigger] chunk_pages(babel_of(bs))[i],
            ),
{
    let t = babel_of(bs);
    lemma_babel_low(bs);
    lemma_chunk_pages_shape(t);
    assert forall|i: int|
        0 <= i < chunk_pages(t).len() implies wf_page(#[trigger] chunk_pages(t)[i]) by {
        let p = chunk_pages(t)[i];
        assert forall|j: int| 0 <= j < p.len() implies is_sym(#[trigger] p[j]) by {
            assert((exists|k: int| 0 <= k < t.len() && p[j] == t[k]) || p[j] == 46);
            if exists|k: int| 0 <= k < t.len() && p[j] == t[k] {
                let k = choose|k: int| 0 <= k < t.len() && p[j] == t[k];
                assert(crate::byte_text::is_low(t[k]));
            }
        }
    }
}

/// Encodes a file's bytes: transcription, chunking, one address per page
/// from the injected coordinate source, and a self-verification pass over
/// every page. The verification cannot fail - the round trip is proved - so
/// encoding always succeeds, and every produced address decodes back to its
/// exact page.
pub fn encode_bytes<S: CoordinateSource>(
    bytes: &Vec<u8>,
    extension: &Vec<u8>,
    source: &mut S,
) -> (r: Result<BabelFile, BabelError>)
    requires
        old(source).inv(),
    ensures
        final(source).inv(),
        r is Ok,
        r->Ok_0.length == bytes@.len(),
        r->Ok_0.extension@ == extension@,
        views(r->Ok_0.addresses@).len() == chunk_pages(babel_of(bytes@)).len(),
        forall|i: int|
            0 <= i < chunk_pages(babel_of(bytes@)).len() ==> decodes_to(
                #[trigger] views(r->Ok_0.addresses@)[i],
                chunk_pages(babel_of(bytes@))[i],
            ),
{
    let text = crate::byte_text::encode(bytes);
    let pages = split_pages(&text);
    proof {
        lemma_chunks_wf(bytes@);
    }
    let mut addresses: Vec<Vec<u8>> = Vec::new();
    let mut j: usize = 0;
    while j < pages.len()
        invariant
            source.inv(),
            j <= pages@.len(),
            views(pages@) == chunk_pages(babel_of(bytes@)),
            forall|i: int|
                0 <= i < chunk_pages(babel_of(bytes@)).len() ==> wf_page(
                    #[trigger] chunk_pages(babel_of(bytes@))[i],
                ),
            addresses@.len() == j,
            forall|i: int|
                0 <= i < j ==> decodes_to(
                    #[trigger] views(addresses@)[i],
                    chunk_pages(babel_of(bytes@))[i],
                ),
        decreases pages@.len() - j,
    {
        let coordinate = source.next_coordinate();
        proof {
            assert(views(pages@)[j as int] == pages@[j as int]@);
            assert(wf_page(pages@[j as int]@));
        }
        let addr = match encode_address(&pages[j], &coordinate) {
            Ok(a) => a,
            Err(e) => {
                proof {
                    assert(false);
                }
                return Err(e);
            },
        };
        proof {
            lemma_address_decodes(addr@, pages@[j as int]@, coordinate);
        }
        let verified = verify_page(&pages[j], &addr);
        if !verified {
            proof {
                assert(false);
            }
            return Err(BabelError::VerificationFailure);
        }
        let ghost old_addresses = addresses@;
        addresses.push(addr);
        proof {
            assert forall|i: int|
                0 <= i < j as int + 1 implies decodes_to(
                #[trigger] views(addresses@)[i],
                chunk_pages(babel_of(bytes@))[i],
            ) by {
                if i < j as int {
                    assert(views(addresses@)[i] == views(old_addresses)[i]);
                } else {
                    assert(views(addresses@)[i] == addr@);
                }
            }
        }
        j += 1;
    }
    let mut ext: Vec<u8> = Vec::new();
    let mut k: usize = 0;
    while k < extension.len()
        invariant
            k <= extension@.len(),
            ext@ == extension@.take(k as int),
        decreases extension@.len() - k,
    {
        ext.push(extension[k]);
        proof {
            assert(extension@.take(k as int + 1) =~= extension@.take(k as int).push(
                extension@[k as int],
            ));
        }
        k += 1;
    }
    proof {
        assert(extension@.take(extension@.len() as int) =~= extension@);
    }
    Ok(BabelFile { extension: ext, length: bytes.len(), addresses })
}

/// Decodes an encoded file back into bytes: every address is decoded, the
/// pages are joined with the final padding stripped, the text is read back
/// into bytes, and the result is truncated to the recorded length. Succeeds
/// exactly when every address decodes and the joined text transcribes bytes.
pub fn decode_bytes(file: &BabelFile) -> (r: Result<Vec<u8>, BabelError>)
    ensures
        r is Ok <==> all_decodable(views(file.addresses@)) && wf_babel(
            join_pages(decoded_pages(views(file.addresses@))),
        ),
        r is Ok ==> r->Ok_0@ == (if file.length as int <= reassembled(views(file.addresses@)).len() {
            reassembled(views(file.addresses@)).take(file.length as int)
        } else {
            reassembled(views(file.addresses@))
        }),
        r is Err && all_decodable(views(file.addresses@)) ==> r->Err_0
            == BabelError::InvalidAlphabet,
{
    let ghost addrs = views(file.addresses@);
    let mut pages: Vec<Vec<u8>> = Vec::new();
    let mut j: usize = 0;
    while j < file.addresses.len()
        invariant
            j <= addrs.len(),
            addrs == views(file.addresses@),
            pages@.len() == j,
            forall|i: int| 0 <= i < j ==> decodes_to(#[trigger] addrs[i], views(pages@)[i]),
        decreases addrs.len() - j,
    {
        let page = match decode_address(&file.addresses[j]) {
            Ok(p) => p,
            Err(e) => {
                proof {
                    lemma_decode_post_decodes(addrs[j as int], Err::<Vec<u8>, BabelError>(e));
                    assert(!decodes_to(addrs[j as int], decoded_page(addrs[j as int])));
                    assert(!all_decodable(addrs));
                }
                return Err(e);
            },
        };
        proof {
            lemma_decode_post_decodes(addrs[j as int], Ok::<Vec<u8>, BabelError>(page));
        }
        let ghost old_pages = pages@;
        pages.push(page);
        proof {
            assert forall|i: int|
                0 <= i < j as int + 1 implies decodes_to(
                #[trigger] addrs[i],
                views(pages@)[i],
            ) by {
                if i < j as int {
                    assert(views(pages@)[i] == views(old_pages)[i]);
                } else {
                    assert(views(pages@)[i] == page@);
                }
            }
        }
        j += 1;
    }
    proof {
        assert forall|i: int| 0 <= i < addrs.len() implies #[trigger] decodes_to(
            addrs[i],
            decoded_page(addrs[i]),
        ) by {
            assert(decodes_to(addrs[i], views(pages@)[i]));
            assert(exists|q: Seq<u8>| decodes_to(addrs[i], q));
        }
        assert(all_decodable(addrs));
        assert forall|i: int| 0 <= i < addrs.len() implies #[trigger] decoded_pages(addrs)[i]
            == views(pages@)[i] by {
            lemma_decodes_to_unique(addrs[i], decoded_page(addrs[i]), views(pages@)[i]);
        }
        assert(decoded_pages(addrs) =~= views(pages@));
    }
    let text = join_decoded(&pages);
    let mut bytes = match crate::byte_text::decode(&text) {
        Ok(b) => b,
        Err(e) => {
            return Err(e);
        },
    };
    if bytes.len() > file.length {
        let ghost pre = bytes@;
        bytes.truncate(file.length);
        proof {
            assert(bytes@ =~= pre.take(file.length as int));
        }
    }
    Ok(bytes)
}

/// The container round trip: every address list that encoding can produce
/// for a byte string decodes, joins and reads back to exactly that byte
/// string. The hypotheses are what `encode_bytes` ensures of its result;
/// `reassembled` truncated to the recorded length is what `decode_bytes`
/// returns.
pub proof fn lemma_container_round_trip(bytes: Seq<u8>, addrs: Seq<Seq<u8>>)
    requires
        addrs.len() == chunk_pages(babel_of(bytes)).len(),
        forall|i: int|
            0 <= i < addrs.len() ==> decodes_to(
                #[trigger] addrs[i],
                chunk_pages(babel_of(bytes))[i],
            ),
    ensures
        all_decodable(addrs),
        wf_babel(join_pages(decoded_pages(addrs))),
        reassembled(addrs) == bytes,
{
    let t = babel_of(bytes);
    let chunks = chunk_pages(t);
    assert forall|i: int| 0 <= i < addrs.len() implies #[trigger] decodes_to(
        addrs[i],
        decoded_page(addrs[i]),
    ) by {
        assert(decodes_to(addrs[i], chunks[i]));
        assert(exists|q: Seq<u8>| decodes_to(addrs[i], q));
    }
    assert(all_decodable(addrs));
    assert forall|i: int| 0 <= i < addrs.len() implies #[trigger] decoded_pages(addrs)[i]
        == chunks[i] by {
        lemma_decodes_to_unique(addrs[i], decoded_page(addrs[i]), chunks[i]);
    }
    assert(decoded_pages(addrs) =~= chunks);
    lemma_babel_low(bytes);
    assert forall|i: int| 0 <= i < t.len() implies #[trigger] t[i] != 46 by {
        assert(crate::byte_text::is_low(t[i]));
    }
    lemma_join_chunk(t);
    lemma_byte_round_trip(bytes);
}

} // verus!
