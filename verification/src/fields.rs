//! Decomposing an address string into its five colon-separated fields. A
//! decomposition into colon-free fields is unique, which is what lets the
//! address codec's contracts quantify over it.

use vstd::prelude::*;
use crate::error::BabelError;

verus! {

/// The field separator, `':'`.
pub const SEP: u8 = 58;

/// No separator occurs in the string.
pub open spec fn colon_free(s: Seq<u8>) -> bool {
    forall|i: int| 0 <= i < s.len() ==> #[trigger] s[i] != 58
}

/// The five fields of an address joined with separators.
pub open spec fn compose_addr(d: Seq<u8>, w: Seq<u8>, s: Seq<u8>, v: Seq<u8>, g: Seq<u8>) -> Seq<
    u8,
> {
    d + seq![58u8] + w + seq![58u8] + s + seq![58u8] + v + seq![58u8] + g
}

/// Whether a string decomposes into five colon-free fields.
pub open spec fn has_five_fields(addr: Seq<u8>) -> bool {
    exists|d: Seq<u8>, w: Seq<u8>, s: Seq<u8>, v: Seq<u8>, g: Seq<u8>|
        colon_free(d) && colon_free(w) && colon_free(s) && colon_free(v) && colon_free(g) && addr
            == #[trigger] compose_addr(d, w, s, v, g)
}

/// Completed fields joined with separators, followed by the field still
/// being read.
pub open spec fn joinc(fs: Seq<Seq<u8>>, cur: Seq<u8>) -> Seq<u8>
    decreases fs.len(),
{
    if fs.len() == 0 {
        cur
    } else {
        fs.first() + seq![58u8] + joinc(fs.drop_first(), cur)
    }
}

/// The number of separators in a string.
pub open spec fn n_colons(s: Seq<u8>) -> int
    decreases s.len(),
{
    if s.len() == 0 {
        0
    } else {
        n_colons(s.drop_last()) + if s.last() == 58 {
            1int
        } else {
            0int
        }
    }
}

pub proof fn lemma_n_colons_append(a: Seq<u8>, b: Seq<u8>)
    ensures
        n_colons(a + b) == n_colons(a) + n_colons(b),
    decreases b.len(),
{
    if b.len() == 0 {
        assert(a + b =~= a);
    } else {
        lemma_n_colons_append(a, b.drop_last());
        assert((a + b).drop_last() =~= a + b.drop_last());
        assert((a + b).last() == b.last());
    }
}

pub proof fn lemma_n_colons_free(a: Seq<u8>)
    requires
        colon_free(a),
    ensures
        n_colons(a) == 0,
    decreases a.len(),
{
    if a.len() > 0 {
        assert(colon_free(a.drop_last()));
        lemma_n_colons_free(a.drop_last());
    }
}

pub proof fn lemma_n_colons_single()
    ensures
        n_colons(seq![58u8]) == 1,
{
    assert(seq![58u8].drop_last() =~= Seq::<u8>::empty());
    assert(n_colons(Seq::<u8>::empty()) == 0);
}

/// A join of `k` completed colon-free fields and a colon-free rest holds
/// exactly `k` separators.
pub proof fn lemma_n_colons_joinc(fs: Seq<Seq<u8>>, cur: Seq<u8>)
    requires
        forall|j: int| 0 <= j < fs.len() ==> colon_free(#[trigger] fs[j]),
        colon_free(cur),
    ensures
        n_colons(joinc(fs, cur)) == fs.len(),
    decreases fs.len(),
{
    if fs.len() == 0 {
        lemma_n_colons_free(cur);
    } else {
        let rest = fs.drop_first();
        assert(forall|j: int| 0 <= j < rest.len() ==> colon_free(#[trigger] rest[j])) by {
            assert(forall|j: int| 0 <= j < rest.len() ==> rest[j] == #[trigger] fs[j + 1]);
        }
        lemma_n_colons_joinc(rest, cur);
        lemma_n_colons_free(fs.first());
        lemma_n_colons_single();
        lemma_n_colons_append(fs.first(), seq![58u8]);
        lemma_n_colons_append(fs.first() + seq![58u8], joinc(rest, cur));
    }
}

/// Appending to the open field appends to the join.
pub proof fn lemma_joinc_snoc(fs: Seq<Seq<u8>>, cur: Seq<u8>, t: Seq<u8>)
    ensures
        joinc(fs, cur + t) == joinc(fs, cur) + t,
    decreases fs.len(),
{
    if fs.len() == 0 {
    } else {
        lemma_joinc_snoc(fs.drop_first(), cur, t);
        assert(fs.first() + seq![58u8] + (joinc(fs.drop_first(), cur) + t) =~= (fs.first()
            + seq![58u8] + joinc(fs.drop_first(), cur)) + t);
    }
}

/// Completing the open field moves it, with a separator, into the joined
/// prefix.
pub proof fn lemma_joinc_push(fs: Seq<Seq<u8>>, x: Seq<u8>, cur: Seq<u8>)
    ensures
        joinc(fs.push(x), cur) == joinc(fs, x + seq![58u8] + cur),
    decreases fs.len(),
{
    if fs.len() == 0 {
        assert(fs.push(x).drop_first() =~= Seq::<Seq<u8>>::empty());
        assert(fs.push(x).first() == x);
        assert(x + seq![58u8] + joinc(Seq::<Seq<u8>>::empty(), cur) =~= x + seq![58u8] + cur);
    } else {
        assert(fs.push(x).drop_first() =~= fs.drop_first().push(x));
        assert(fs.push(x).first() == fs.first());
        lemma_joinc_push(fs.drop_first(), x, cur);
    }
}

/// An address is the join of its first four fields around the fifth.
pub proof fn lemma_compose_is_joinc(d: Seq<u8>, w: Seq<u8>, s: Seq<u8>, v: Seq<u8>, g: Seq<u8>)
    ensures
        compose_addr(d, w, s, v, g) == joinc(seq![d, w, s, v], g),
{
    let l0 = seq![d, w, s, v];
    let l1 = seq![w, s, v];
    let l2 = seq![s, v];
    let l3 = seq![v];
    assert(l0.drop_first() =~= l1);
    assert(l1.drop_first() =~= l2);
    assert(l2.drop_first() =~= l3);
    assert(l3.drop_first() =~= Seq::<Seq<u8>>::empty());
    assert(joinc(Seq::<Seq<u8>>::empty(), g) == g);
    assert(l3.first() == v && l2.first() == s && l1.first() == w && l0.first() == d);
    assert(joinc(l3, g) == v + seq![58u8] + g);
    assert(joinc(l2, g) == s + seq![58u8] + joinc(l3, g));
    assert(joinc(l1, g) == w + seq![58u8] + joinc(l2, g));
    assert(joinc(l0, g) == d + seq![58u8] + joinc(l1, g));
    assert(joinc(l0, g) == d + seq![58u8] + (w + seq![58u8] + (s + seq![58u8] + (v + seq![58u8]
        + g))));
    assert(compose_addr(d, w, s, v, g) =~= d + seq![58u8] + (w + seq![58u8] + (s + seq![58u8] + (v
        + seq![58u8] + g))));
}

/// Around the first separator, equal joins have equal parts.
pub proof fn lemma_first_segment(a: Seq<u8>, x: Seq<u8>, b: Seq<u8>, y: Seq<u8>)
    requires
        a + seq![58u8] + x == b + seq![58u8] + y,
        colon_free(a),
        colon_free(b),
    ensures
        a == b,
        x == y,
{
    let s = a + seq![58u8] + x;
    let t = b + seq![58u8] + y;
    assert(s.len() == a.len() + 1 + x.len());
    assert(t.len() == b.len() + 1 + y.len());
    if a.len() < b.len() {
        assert(s[a.len() as int] == 58);
        assert(t[a.len() as int] == b[a.len() as int]);
        assert(false);
    }
    if b.len() < a.len() {
        assert(t[b.len() as int] == 58);
        assert(s[b.len() as int] == a[b.len() as int]);
        assert(false);
    }
    assert forall|i: int| 0 <= i < a.len() implies a[i] == b[i] by {
        assert(s[i] == a[i]);
        assert(t[i] == b[i]);
    }
    assert(a =~= b);
    assert forall|i: int| 0 <= i < x.len() implies x[i] == y[i] by {
        assert(s[a.len() + 1 + i] == x[i]);
        assert(t[b.len() + 1 + i] == y[i]);
    }
    assert(x =~= y);
}

/// The decomposition of an address into five colon-free fields is unique.
pub proof fn lemma_decomposition_unique(
    d: Seq<u8>,
    w: Seq<u8>,
    s: Seq<u8>,
    v: Seq<u8>,
    g: Seq<u8>,
    d2: Seq<u8>,
    w2: Seq<u8>,
    s2: Seq<u8>,
    v2: Seq<u8>,
    g2: Seq<u8>,
)
    requires
        colon_free(d),
        colon_free(w),
        colon_free(s),
        colon_free(v),
        colon_free(g),
        colon_free(d2),
        colon_free(w2),
        colon_free(s2),
        colon_free(v2),
        colon_free(g2),
        compose_addr(d, w, s, v, g) == compose_addr(d2, w2, s2, v2, g2),
    ensures
        d == d2 && w == w2 && s == s2 && v == v2 && g == g2,
{
    let r1 = w + seq![58u8] + (s + seq![58u8] + (v + seq![58u8] + g));
    let r2 = w2 + seq![58u8] + (s2 + seq![58u8] + (v2 + seq![58u8] + g2));
    assert(compose_addr(d, w, s, v, g) =~= d + seq![58u8] + r1);
    assert(compose_addr(d2, w2, s2, v2, g2) =~= d2 + seq![58u8] + r2);
    lemma_first_segment(d, r1, d2, r2);
    let q1 = s + seq![58u8] + (v + seq![58u8] + g);
    let q2 = s2 + seq![58u8] + (v2 + seq![58u8] + g2);
    assert(r1 =~= w + seq![58u8] + q1);
    assert(r2 =~= w2 + seq![58u8] + q2);
    lemma_first_segment(w, q1, w2, q2);
    let p1 = v + seq![58u8] + g;
    let p2 = v2 + seq![58u8] + g2;
    assert(q1 =~= s + seq![58u8] + p1);
    assert(q2 =~= s2 + seq![58u8] + p2);
    lemma_first_segment(s, p1, s2, p2);
    lemma_first_segment(v, g, v2, g2);
}

/// The views of a sequence of byte vectors.
pub open spec fn views(fs: Seq<Vec<u8>>) -> Seq<Seq<u8>> {
    Seq::new(fs.len(), |i: int| fs[i]@)
}

/// Splits an address into its five colon-separated fields, or fails, with
/// `InvalidAddress`, exactly when it does not consist of five.
pub fn split5(addr: &Vec<u8>) -> (r: Result<
    (Vec<u8>, Vec<u8>, Vec<u8>, Vec<u8>, Vec<u8>),
    BabelError,
>)
    ensures
        r is Err ==> r->Err_0 == BabelError::InvalidAddress && !has_five_fields(addr@),
        r is Ok ==> {
            let (d, w, s, v, g) = r->Ok_0;
            colon_free(d@) && colon_free(w@) && colon_free(s@) && colon_free(v@) && colon_free(g@)
                && addr@ == compose_addr(d@, w@, s@, v@, g@)
        },
{
    let mut fields: Vec<Vec<u8>> = Vec::new();
    let mut cur: Vec<u8> = Vec::new();
    let mut i: usize = 0;
    proof {
        assert(views(fields@) =~= Seq::<Seq<u8>>::empty());
        assert(joinc(views(fields@), cur@) =~= addr@.take(0));
    }
    while i < addr.len()
        invariant
            i <= addr@.len(),
            forall|j: int| 0 <= j < fields@.len() ==> colon_free(#[trigger] views(fields@)[j]),
            colon_free(cur@),
            joinc(views(fields@), cur@) == addr@.take(i as int),
        decreases addr@.len() - i,
    {
        let c = addr[i];
        let ghost old_fields = fields@;
        let ghost old_cur = cur@;
        if c == 58 {
            fields.push(cur);
            cur = Vec::new();
            proof {
                assert(views(fields@) =~= views(old_fields).push(old_cur));
                lemma_joinc_push(views(old_fields), old_cur, cur@);
                assert(old_cur + seq![58u8] + cur@ =~= old_cur + seq![58u8]);
                lemma_joinc_snoc(views(old_fields), old_cur, seq![58u8]);
                assert(addr@.take(i as int + 1) =~= addr@.take(i as int) + seq![addr@[i as int]]);
            }
        } else {
            cur.push(c);
            proof {
                assert(cur@ =~= old_cur + seq![c]);
                lemma_joinc_snoc(views(old_fields), old_cur, seq![c]);
                assert(addr@.take(i as int + 1) =~= addr@.take(i as int) + seq![addr@[i as int]]);
            }
        }
        i += 1;
    }
    proof {
        assert(addr@.take(addr@.len() as int) =~= addr@);
    }
    if fields.len() != 4 {
        proof {
            lemma_n_colons_joinc(views(fields@), cur@);
            if has_five_fields(addr@) {
                let (d, w, s, v, g) = choose|d: Seq<u8>, w: Seq<u8>, s: Seq<u8>, v: Seq<u8>, g: Seq<
                    u8,
                >|
                    colon_free(d) && colon_free(w) && colon_free(s) && colon_free(v) && colon_free(
                        g,
                    ) && addr@ == #[trigger] compose_addr(d, w, s, v, g);
                lemma_compose_is_joinc(d, w, s, v, g);
                let l0 = seq![d, w, s, v];
                assert(forall|j: int| 0 <= j < l0.len() ==> colon_free(#[trigger] l0[j])) by {
                    assert(l0[0] == d && l0[1] == w && l0[2] == s && l0[3] == v);
                }
                lemma_n_colons_joinc(l0, g);
                assert(false);
            }
        }
        return Err(BabelError::InvalidAddress);
    }
    let ghost old_fs = fields@;
    let f0 = fields.remove(0);
    let f1 = fields.remove(0);
    let f2 = fields.remove(0);
    let f3 = fields.remove(0);
    proof {
        let fsv = views(old_fs);
        assert(f0@ == fsv[0] && f1@ == fsv[1] && f2@ == fsv[2] && f3@ == fsv[3]);
        assert(fsv =~= seq![f0@, f1@, f2@, f3@]);
        lemma_compose_is_joinc(f0@, f1@, f2@, f3@, cur@);
    }
    Ok((f0, f1, f2, f3, cur))
}

} // verus!
