//! The page chunker: babel text is cut into consecutive pages of
//! `LENGTH_OF_PAGE` characters, the final short page right-padded with the
//! sentinel `'.'`; joining strips the padding from the final page only and
//! concatenates.

use vstd::prelude::*;

use crate::alphabet::{strip_pad, trim_pad, lemma_strip_pad_padded, lemma_strip_pad_free};
use crate::fields::views;
use crate::page::LENGTH_OF_PAGE;

verus! {

/// A run of padding sentinels.
pub open spec fn pad_seq(k: nat) -> Seq<u8> {
    Seq::new(k, |i: int| 46u8)
}

/// The pages a text is cut into: full pages of `LENGTH_OF_PAGE` characters,
/// the final short one padded to that length; empty text has no pages.
pub open spec fn chunk_pages(t: Seq<u8>) -> Seq<Seq<u8>>
    decreases t.len(),
{
    if t.len() == 0 {
        Seq::empty()
    } else if t.len() <= LENGTH_OF_PAGE {
        seq![t + pad_seq((LENGTH_OF_PAGE - t.len()) as nat)]
    } else {
        seq![t.take(LENGTH_OF_PAGE as int)] + chunk_pages(t.skip(LENGTH_OF_PAGE as int))
    }
}

/// The concatenation of a sequence of texts.
pub open spec fn cat(ps: Seq<Seq<u8>>) -> Seq<u8>
    decreases ps.len(),
{
    if ps.len() == 0 {
        Seq::empty()
    } else {
        cat(ps.drop_last()) + ps.last()
    }
}

/// Pages joined back into one text: every page in order, the final one with
/// its trailing padding stripped.
pub open spec fn join_pages(ps: Seq<Seq<u8>>) -> Seq<u8> {
    if ps.len() == 0 {
        Seq::empty()
    } else {
        cat(ps.drop_last()) + strip_pad(ps.last())
    }
}

/// Every page the chunker produces has exactly `LENGTH_OF_PAGE` characters,
/// and every character of a page is a character of the text or the sentinel.
pub proof fn lemma_chunk_pages_shape(t: Seq<u8>)
    ensures
        forall|i: int|
            0 <= i < chunk_pages(t).len() ==> (#[trigger] chunk_pages(t)[i]).len()
                == LENGTH_OF_PAGE,
        forall|i: int, j: int|
            0 <= i < chunk_pages(t).len() && 0 <= j < chunk_pages(t)[i].len() ==> ((exists|k: int|
                0 <= k < t.len() && #[trigger] chunk_pages(t)[i][j] == t[k]) || chunk_pages(
                t,
            )[i][j] == 46),
    decreases t.len(),
{
    if t.len() == 0 {
    } else if t.len() <= LENGTH_OF_PAGE {
        let p = t + pad_seq((LENGTH_OF_PAGE - t.len()) as nat);
        assert forall|j: int| 0 <= j < p.len() implies ((exists|k: int|
            0 <= k < t.len() && #[trigger] p[j] == t[k]) || p[j] == 46) by {
            if j < t.len() {
                assert(p[j] == t[j]);
            } else {
                assert(p[j] == 46);
            }
        }
    } else {
        lemma_chunk_pages_shape(t.skip(LENGTH_OF_PAGE as int));
        let head = t.take(LENGTH_OF_PAGE as int);
        let rest = chunk_pages(t.skip(LENGTH_OF_PAGE as int));
        assert forall|i: int, j: int|
            0 <= i < chunk_pages(t).len() && 0 <= j < chunk_pages(t)[i].len() implies ((exists|
                k: int,
            |
                0 <= k < t.len() && #[trigger] chunk_pages(t)[i][j] == t[k]) || chunk_pages(
                t,
            )[i][j] == 46) by {
            if i == 0 {
                assert(chunk_pages(t)[0] == head);
                assert(head[j] == t[j]);
            } else {
                assert(chunk_pages(t)[i] == rest[i - 1]);
                if exists|k: int|
                    0 <= k < t.skip(LENGTH_OF_PAGE as int).len() && #[trigger] rest[i - 1][j]
                        == t.skip(LENGTH_OF_PAGE as int)[k] {
                    let k = choose|k: int|
                        0 <= k < t.skip(LENGTH_OF_PAGE as int).len() && #[trigger] rest[i - 1][j]
                            == t.skip(LENGTH_OF_PAGE as int)[k];
                    assert(t.skip(LENGTH_OF_PAGE as int)[k] == t[k + LENGTH_OF_PAGE]);
                }
            }
        }
    }
}

/// Prepending one page to a join prepends its text.
proof fn lemma_cat_prepend(a: Seq<u8>, x: Seq<Seq<u8>>)
    ensures
        cat(seq![a] + x) == a + cat(x),
    decreases x.len(),
{
    if x.len() == 0 {
        assert((seq![a] + x) =~= seq![a]);
        assert(seq![a].drop_last() =~= Seq::<Seq<u8>>::empty());
        assert(cat(seq![a]) == cat(Seq::<Seq<u8>>::empty()) + a);
        assert(Seq::<u8>::empty() + a =~= a);
        assert(a + cat(x) =~= a);
    } else {
        assert((seq![a] + x).drop_last() =~= seq![a] + x.drop_last());
        assert((seq![a] + x).last() == x.last());
        lemma_cat_prepend(a, x.drop_last());
        assert((a + cat(x.drop_last())) + x.last() =~= a + (cat(x.drop_last()) + x.last()));
    }
}

/// Joining the chunks of a text without sentinels gives the text back: the
/// chunker's padding is exactly what the join removes.
pub proof fn lemma_join_chunk(t: Seq<u8>)
    requires
        forall|i: int| 0 <= i < t.len() ==> #[trigger] t[i] != 46,
    ensures
        join_pages(chunk_pages(t)) == t,
    decreases t.len(),
{
    if t.len() == 0 {
    } else if t.len() <= LENGTH_OF_PAGE {
        let cs = chunk_pages(t);
        assert(cs.len() == 1);
        assert(cs.drop_last() =~= Seq::<Seq<u8>>::empty());
        lemma_strip_pad_padded(t, (LENGTH_OF_PAGE - t.len()) as nat);
        lemma_strip_pad_free(t);
        assert(cs.last() == t + pad_seq((LENGTH_OF_PAGE - t.len()) as nat));
        assert(join_pages(cs) =~= t);
    } else {
        let head = t.take(LENGTH_OF_PAGE as int);
        let tail = t.skip(LENGTH_OF_PAGE as int);
        assert(forall|i: int| 0 <= i < tail.len() ==> #[trigger] tail[i] != 46) by {
            assert(forall|i: int| 0 <= i < tail.len() ==> tail[i] == #[trigger] t[i
                + LENGTH_OF_PAGE]);
        }
        lemma_join_chunk(tail);
        let rest = chunk_pages(tail);
        assert(rest.len() >= 1);
        let cs = chunk_pages(t);
        assert(cs =~= seq![head] + rest);
        assert(cs.drop_last() =~= seq![head] + rest.drop_last());
        assert(cs.last() == rest.last());
        lemma_cat_prepend(head, rest.drop_last());
        assert(join_pages(cs) =~= head + join_pages(rest));
        assert(head + tail =~= t);
    }
}

/// Copies the byte range `[from, to)` of a text.
fn copy_range(src: &Vec<u8>, from: usize, to: usize) -> (r: Vec<u8>)
    requires
        from <= to <= src@.len(),
    ensures
        r@ == src@.subrange(from as int, to as int),
{
    let mut r: Vec<u8> = Vec::new();
    let mut i: usize = from;
    while i < to
        invariant
            from <= i <= to <= src@.len(),
            r@ == src@.subrange(from as int, i as int),
        decreases to - i,
    {
        r.push(src[i]);
        proof {
            assert(src@.subrange(from as int, i as int + 1) =~= src@.subrange(
                from as int,
                i as int,
            ).push(src@[i as int]));
        }
        i += 1;
    }
    r
}

/// Cuts babel text into pages of exactly `LENGTH_OF_PAGE` characters, the
/// final short page right-padded with the sentinel.
pub fn split_pages(text: &Vec<u8>) -> (r: Vec<Vec<u8>>)
    ensures
        views(r@) == chunk_pages(text@),
{
    let mut out: Vec<Vec<u8>> = Vec::new();
    let mut i: usize = 0;
    let tl = text.len();
    proof {
        assert(views(out@) =~= Seq::<Seq<u8>>::empty());
        assert(text@.skip(0) =~= text@);
        assert(Seq::<Seq<u8>>::empty() + chunk_pages(text@) =~= chunk_pages(text@));
    }
    while tl - i > LENGTH_OF_PAGE
        invariant
            i <= text@.len(),
            tl == text@.len(),
            views(out@) + chunk_pages(text@.skip(i as int)) == chunk_pages(text@),
        decreases text@.len() - i,
    {
        let page = copy_range(text, i, i + LENGTH_OF_PAGE);
        let ghost old_out = out@;
        out.push(page);
        proof {
            let s = text@.skip(i as int);
            assert(s.take(LENGTH_OF_PAGE as int) =~= text@.subrange(
                i as int,
                i as int + LENGTH_OF_PAGE,
            ));
            assert(s.skip(LENGTH_OF_PAGE as int) =~= text@.skip(i as int + LENGTH_OF_PAGE));
            assert(chunk_pages(s) == seq![page@] + chunk_pages(
                text@.skip(i as int + LENGTH_OF_PAGE),
            ));
            assert(views(out@) =~= views(old_out).push(page@));
            assert(views(out@) + chunk_pages(text@.skip(i as int + LENGTH_OF_PAGE)) =~= views(
                old_out,
            ) + chunk_pages(s));
        }
        i += LENGTH_OF_PAGE;
    }
    if i < tl {
        let mut page = copy_range(text, i, tl);
        let ghost body = page@;
        proof {
            assert(page@ =~= body + pad_seq(0));
        }
        while page.len() < LENGTH_OF_PAGE
            invariant
                body.len() <= page@.len() <= LENGTH_OF_PAGE,
                page@ =~= body + pad_seq((page@.len() - body.len()) as nat),
            decreases LENGTH_OF_PAGE - page@.len(),
        {
            page.push(46);
            proof {
                assert(page@ =~= body + pad_seq((page@.len() - body.len()) as nat));
            }
        }
        let ghost old_out = out@;
        out.push(page);
        proof {
            let s = text@.skip(i as int);
            assert(body =~= s);
            assert(s.len() > 0 && s.len() <= LENGTH_OF_PAGE);
            assert(chunk_pages(s) == seq![s + pad_seq((LENGTH_OF_PAGE - s.len()) as nat)]);
            assert(page@ =~= s + pad_seq((LENGTH_OF_PAGE - s.len()) as nat));
            assert(views(out@) =~= views(old_out).push(page@));
            assert(views(out@) =~= views(old_out) + chunk_pages(s));
        }
    } else {
        proof {
            assert(text@.skip(i as int) =~= Seq::<u8>::empty());
            assert(chunk_pages(Seq::<u8>::empty()) =~= Seq::<Seq<u8>>::empty());
            assert(views(out@) + Seq::<Seq<u8>>::empty() =~= views(out@));
        }
    }
    proof {
        assert(views(out@) =~= chunk_pages(text@));
    }
    out
}

/// Joins decoded pages back into one text, stripping the padding from the
/// final page only.
pub fn join_decoded(pages: &Vec<Vec<u8>>) -> (r: Vec<u8>)
    ensures
        r@ == join_pages(views(pages@)),
{
    let mut r: Vec<u8> = Vec::new();
    if pages.len() == 0 {
        return r;
    }
    let mut i: usize = 0;
    proof {
        assert(cat(views(pages@).take(0)) =~= Seq::<u8>::empty());
        assert(r@ =~= Seq::<u8>::empty());
    }
    while i < pages.len() - 1
        invariant
            pages@.len() > 0,
            i <= pages@.len() - 1,
            r@ == cat(views(pages@).take(i as int)),
        decreases pages@.len() - i,
    {
        let mut page = copy_range(&pages[i], 0, pages[i].len());
        proof {
            assert(page@ =~= views(pages@)[i as int]);
        }
        push_all_bytes(&mut r, &page);
        proof {
            let tv = views(pages@).take(i as int + 1);
            assert(tv.drop_last() =~= views(pages@).take(i as int));
            assert(tv.last() == views(pages@)[i as int]);
        }
        i += 1;
    }
    let last = trim_pad(&pages[pages.len() - 1]);
    push_all_bytes(&mut r, &last);
    proof {
        assert(views(pages@).take(pages@.len() - 1) =~= views(pages@).drop_last());
        assert(views(pages@).last() == pages@[pages@.len() - 1]@);
    }
    r
}

/// Appends a copy of a byte string.
fn push_all_bytes(out: &mut Vec<u8>, s: &Vec<u8>)
    ensures
        final(out)@ == old(out)@ + s@,
{
    let mut i: usize = 0;
    while i < s.len()
        invariant
            i <= s@.len(),
            out@ == old(out)@ + s@.take(i as int),
        decreases s@.len() - i,
    {
        out.push(s[i]);
        proof {
            assert(old(out)@ + s@.take(i as int + 1) =~= (old(out)@ + s@.take(i as int)).push(
                s@[i as int],
            ));
        }
        i += 1;
    }
    proof {
        assert(s@.take(s@.len() as int) =~= s@);
    }
}

} // verus!
