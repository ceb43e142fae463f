//! Percent-encoding over byte strings, the canonical `key=value&...` query
//! form built from it, and the decoding specification that shows the
//! canonical form loses nothing.

use vstd::prelude::*;

verus! {

/// RFC 3986 unreserved byte: an ASCII letter or digit, or one of `- _ . ~`.
pub open spec fn is_unreserved(b: u8) -> bool {
    (48 <= b && b <= 57)  // '0'..'9'
    || (65 <= b && b <= 90)  // 'A'..'Z'
    || (97 <= b && b <= 122)  // 'a'..'z'
    || b == 45 || b == 95 || b == 46 || b == 126  // - _ . ~
}

/// Uppercase hexadecimal digit of a value below 16.
pub open spec fn hex_digit(n: u8) -> u8
    recommends
        n < 16,
{
    if n < 10 {
        (48 + n) as u8  // '0' + n
    } else {
        (55 + n) as u8  // 'A' + (n - 10)
    }
}

/// The percent-encoding of one byte: itself if unreserved, else `%XY`.
pub open spec fn pct_byte(b: u8) -> Seq<u8> {
    if is_unreserved(b) {
        seq![b]
    } else {
        seq![37u8, hex_digit((b / 16) as u8), hex_digit((b % 16) as u8)]
    }
}

/// The percent-encoding of a byte string, byte for byte.
pub open spec fn pct(s: Seq<u8>) -> Seq<u8>
    decreases s.len(),
{
    if s.len() == 0 {
        Seq::empty()
    } else {
        pct_byte(s[0]) + pct(s.skip(1))
    }
}

pub proof fn lemma_pct_concat(a: Seq<u8>, b: Seq<u8>)
    ensures
        pct(a + b) == pct(a) + pct(b),
    decreases a.len(),
{
    if a.len() == 0 {
        assert(a + b =~= b);
        assert(pct(a) + pct(b) =~= pct(b));
    } else {
        assert((a + b).skip(1) =~= a.skip(1) + b);
        lemma_pct_concat(a.skip(1), b);
        assert(pct(a + b) =~= pct(a) + pct(b));
    }
}

pub proof fn lemma_pct_single(b: u8)
    ensures
        pct(seq![b]) == pct_byte(b),
{
    assert(seq![b].skip(1) =~= Seq::<u8>::empty());
    assert(pct(seq![b].skip(1)) =~= Seq::<u8>::empty());
    assert(pct(seq![b]) =~= pct_byte(b));
}

/// Relies on percent_encoding::percent_encode_byte: the three bytes
/// `%XY`, with X and Y the uppercase hexadecimal digits of the byte.
#[verifier::external_body]
fn percent_byte(b: u8) -> (r: Vec<u8>)
    ensures
        r@ == seq![37u8, hex_digit((b / 16) as u8), hex_digit((b % 16) as u8)],
{
    percent_encoding::percent_encode_byte(b).as_bytes().to_vec()
}

/// Percent-encode a byte string under the unreserved-only set.
pub fn percent_encode(s: &Vec<u8>) -> (r: Vec<u8>)
    ensures
        r@ == pct(s@),
{
    let mut out: Vec<u8> = Vec::new();
    let mut i: usize = 0;
    while i < s.len()
        invariant
            i <= s@.len(),
            out@ == pct(s@.take(i as int)),
        decreases s@.len() - i,
    {
        let b = s[i];
        if (48 <= b && b <= 57) || (65 <= b && b <= 90) || (97 <= b && b <= 122) || b == 45 || b
            == 95 || b == 46 || b == 126 {
            out.push(b);
        } else {
            let mut enc = percent_byte(b);
            out.append(&mut enc);
        }
        proof {
            assert(s@.take(i + 1) =~= s@.take(i as int) + seq![s@[i as int]]);
            lemma_pct_concat(s@.take(i as int), seq![s@[i as int]]);
            lemma_pct_single(s@[i as int]);
        }
        i = i + 1;
    }
    proof {
        assert(s@.take(s@.len() as int) =~= s@);
    }
    out
}

/// One `key=value` pair, both sides percent-encoded.
pub open spec fn enc_pair(p: (Seq<u8>, Seq<u8>)) -> Seq<u8> {
    pct(p.0) + seq![61u8] + pct(p.1)
}

/// The canonical query string: encoded pairs joined with `&`.
pub open spec fn query(ps: Seq<(Seq<u8>, Seq<u8>)>) -> Seq<u8>
    decreases ps.len(),
{
    if ps.len() == 0 {
        Seq::empty()
    } else if ps.len() == 1 {
        enc_pair(ps[0])
    } else {
        query(ps.drop_last()) + seq![38u8] + enc_pair(ps.last())
    }
}

pub proof fn lemma_query_front(ps: Seq<(Seq<u8>, Seq<u8>)>)
    requires
        ps.len() >= 2,
    ensures
        query(ps) == enc_pair(ps[0]) + seq![38u8] + query(ps.drop_first()),
    decreases ps.len(),
{
    if ps.len() == 2 {
        assert(ps.drop_last() =~= seq![ps[0]]);
        assert(ps.drop_first() =~= seq![ps[1]]);
        assert(query(seq![ps[0]]) == enc_pair(ps[0]));
        assert(query(seq![ps[1]]) == enc_pair(ps[1]));
        assert(query(ps) =~= enc_pair(ps[0]) + seq![38u8] + query(ps.drop_first()));
    } else {
        lemma_query_front(ps.drop_last());
        assert(ps.drop_last()[0] == ps[0]);
        assert(ps.drop_last().drop_first() =~= ps.drop_first().drop_last());
        assert(ps.drop_first().len() >= 2);
        assert(ps.drop_first().last() == ps.last());
        assert(query(ps) =~= enc_pair(ps[0]) + seq![38u8] + query(ps.drop_first()));
    }
}

pub proof fn lemma_query_nonempty(ps: Seq<(Seq<u8>, Seq<u8>)>)
    requires
        ps.len() >= 1,
    ensures
        query(ps).len() >= 1,
    decreases ps.len(),
{
    if ps.len() > 1 {
        lemma_query_nonempty(ps.drop_last());
    }
}

/// An uppercase-hex byte, as `pct_byte` emits them.
pub open spec fn is_hex_upper(b: u8) -> bool {
    (48 <= b && b <= 57) || (65 <= b && b <= 70)
}

pub open spec fn hex_val(b: u8) -> u8
    recommends
        is_hex_upper(b),
{
    if b < 58 {
        (b - 48) as u8
    } else {
        (b - 55) as u8
    }
}

/// Percent-decoding: the inverse of `pct` on its range, `None` on a
/// malformed escape.
pub open spec fn pct_dec(s: Seq<u8>) -> Option<Seq<u8>>
    decreases s.len(),
{
    if s.len() == 0 {
        Some(Seq::empty())
    } else if s[0] == 37 {
        if s.len() >= 3 && is_hex_upper(s[1]) && is_hex_upper(s[2]) {
            match pct_dec(s.skip(3)) {
                Option::Some(rest) => Option::Some(
                    seq![(hex_val(s[1]) * 16 + hex_val(s[2])) as u8] + rest,
                ),
                Option::None => Option::None,
            }
        } else {
            Option::None
        }
    } else {
        match pct_dec(s.skip(1)) {
            Option::Some(rest) => Option::Some(seq![s[0]] + rest),
            Option::None => Option::None,
        }
    }
}

/// Decoding the percent-encoding of any byte string gives it back.
pub proof fn lemma_pct_roundtrip(s: Seq<u8>)
    ensures
        pct_dec(pct(s)) == Option::Some(s),
    decreases s.len(),
{
    if s.len() == 0 {
        assert(pct(s) =~= Seq::<u8>::empty());
        assert(s =~= Seq::<u8>::empty());
    } else {
        let b = s[0];
        lemma_pct_roundtrip(s.skip(1));
        if is_unreserved(b) {
            assert(pct(s) =~= seq![b] + pct(s.skip(1)));
            assert(pct(s)[0] == b);
            assert(b != 37);
            assert(pct(s).skip(1) =~= pct(s.skip(1)));
            assert(seq![b] + s.skip(1) =~= s);
        } else {
            let h1 = hex_digit((b / 16) as u8);
            let h2 = hex_digit((b % 16) as u8);
            assert(pct(s) =~= seq![37u8, h1, h2] + pct(s.skip(1)));
            assert(pct(s)[0] == 37 && pct(s)[1] == h1 && pct(s)[2] == h2);
            assert(is_hex_upper(h1) && is_hex_upper(h2));
            assert(hex_val(h1) == b / 16 && hex_val(h2) == b % 16);
            assert(hex_val(h1) * 16 + hex_val(h2) == b);
            assert(pct(s).skip(3) =~= pct(s.skip(1)));
            assert(seq![b] + s.skip(1) =~= s);
        }
    }
}

/// Nothing `pct` emits is a `&` or `=` byte, so the joined query string
/// splits back unambiguously.
pub proof fn lemma_pct_reserved_free(s: Seq<u8>)
    ensures
        forall|i: int| 0 <= i < pct(s).len() ==> pct(s)[i] != 38 && pct(s)[i] != 61,
    decreases s.len(),
{
    if s.len() > 0 {
        lemma_pct_reserved_free(s.skip(1));
        assert(pct(s) =~= pct_byte(s[0]) + pct(s.skip(1)));
        assert(forall|i: int|
            0 <= i < pct_byte(s[0]).len() ==> pct_byte(s[0])[i] != 38 && pct_byte(s[0])[i] != 61);
    }
}

/// Index of the first occurrence of `b` in `s`, or `-1`.
pub open spec fn find_byte(s: Seq<u8>, b: u8) -> int
    decreases s.len(),
{
    if s.len() == 0 {
        -1
    } else if s[0] == b {
        0
    } else {
        let r = find_byte(s.skip(1), b);
        if r < 0 {
            -1
        } else {
            r + 1
        }
    }
}

pub proof fn lemma_find_byte(s: Seq<u8>, b: u8)
    ensures
        find_byte(s, b) >= 0 ==> find_byte(s, b) < s.len() && s[find_byte(s, b)] == b && (forall|
            j: int,
        |
            0 <= j < find_byte(s, b) ==> s[j] != b),
        find_byte(s, b) < 0 ==> forall|j: int| 0 <= j < s.len() ==> s[j] != b,
    decreases s.len(),
{
    if s.len() > 0 && s[0] != b {
        lemma_find_byte(s.skip(1), b);
        let r = find_byte(s.skip(1), b);
        assert(forall|j: int| 0 <= j < s.skip(1).len() ==> s.skip(1)[j] == s[j + 1]);
        if r >= 0 {
            assert(s[r + 1] == s.skip(1)[r]);
            assert(forall|j: int| 1 <= j < r + 1 ==> s[j] == s.skip(1)[j - 1]);
        } else {
            assert(forall|j: int| 1 <= j < s.len() ==> s[j] == s.skip(1)[j - 1]);
        }
    }
}

/// Split on a separator byte; the separator itself is dropped.
pub open spec fn split_on(s: Seq<u8>, b: u8) -> Seq<Seq<u8>>
    decreases s.len(),
{
    let f = find_byte(s, b);
    if 0 <= f && f < s.len() {
        seq![s.take(f)] + split_on(s.skip(f + 1), b)
    } else {
        seq![s]
    }
}

pub proof fn lemma_split_no_sep(s: Seq<u8>, b: u8)
    requires
        forall|i: int| 0 <= i < s.len() ==> s[i] != b,
    ensures
        split_on(s, b) == seq![s],
{
    lemma_find_byte(s, b);
    if find_byte(s, b) >= 0 {
        assert(s[find_byte(s, b)] == b);
        assert(false);
    }
}

pub proof fn lemma_split_prefix(a: Seq<u8>, rest: Seq<u8>, b: u8)
    requires
        forall|i: int| 0 <= i < a.len() ==> a[i] != b,
    ensures
        split_on(a + seq![b] + rest, b) == seq![a] + split_on(rest, b),
{
    let s = a + seq![b] + rest;
    lemma_find_byte(s, b);
    let f = find_byte(s, b);
    assert(s[a.len() as int] == b);
    if f < 0 {
        assert(false);
    }
    if f > a.len() {
        assert(s[a.len() as int] == b && a.len() < f);
        assert(false);
    }
    if f < a.len() {
        assert(s[f] == a[f]);
        assert(false);
    }
    assert(f == a.len());
    assert(s.take(f) =~= a);
    assert(s.skip(f + 1) =~= rest);
    assert(split_on(s, b) =~= seq![a] + split_on(rest, b));
}

/// Decoding one `key=value` chunk.
pub open spec fn dec_pair(s: Seq<u8>) -> Option<(Seq<u8>, Seq<u8>)> {
    let f = find_byte(s, 61);
    if 0 <= f && f < s.len() {
        match (pct_dec(s.take(f)), pct_dec(s.skip(f + 1))) {
            (Option::Some(k), Option::Some(v)) => Option::Some((k, v)),
            _ => Option::None,
        }
    } else {
        Option::None
    }
}

pub proof fn lemma_dec_pair(p: (Seq<u8>, Seq<u8>))
    ensures
        dec_pair(enc_pair(p)) == Option::Some(p),
{
    let s = enc_pair(p);
    lemma_pct_reserved_free(p.0);
    lemma_pct_reserved_free(p.1);
    lemma_find_byte(s, 61);
    let f = find_byte(s, 61);
    assert(s[pct(p.0).len() as int] == 61);
    if f < 0 {
        assert(false);
    }
    if f > pct(p.0).len() {
        assert(false);
    }
    if f < pct(p.0).len() {
        assert(s[f] == pct(p.0)[f]);
        assert(false);
    }
    assert(f == pct(p.0).len());
    assert(s.take(f) =~= pct(p.0));
    assert(s.skip(f + 1) =~= pct(p.1));
    lemma_pct_roundtrip(p.0);
    lemma_pct_roundtrip(p.1);
}

pub open spec fn dec_chunks(cs: Seq<Seq<u8>>) -> Option<Seq<(Seq<u8>, Seq<u8>)>>
    decreases cs.len(),
{
    if cs.len() == 0 {
        Option::Some(Seq::empty())
    } else {
        match (dec_pair(cs[0]), dec_chunks(cs.drop_first())) {
            (Option::Some(p), Option::Some(r)) => Option::Some(seq![p] + r),
            _ => Option::None,
        }
    }
}

/// Decoding a whole canonical query string back into its pairs.
pub open spec fn dec_query(s: Seq<u8>) -> Option<Seq<(Seq<u8>, Seq<u8>)>> {
    if s.len() == 0 {
        Option::Some(Seq::empty())
    } else {
        dec_chunks(split_on(s, 38))
    }
}

/// Decoding the canonical query string of any pair sequence recovers the
/// pairs exactly: the canonical form loses nothing.
pub proof fn lemma_query_roundtrip(ps: Seq<(Seq<u8>, Seq<u8>)>)
    ensures
        dec_query(query(ps)) == Option::Some(ps),
    decreases ps.len(),
{
    if ps.len() == 0 {
    } else if ps.len() == 1 {
        let c = enc_pair(ps[0]);
        lemma_pct_reserved_free(ps[0].0);
        lemma_pct_reserved_free(ps[0].1);
        assert(forall|i: int| 0 <= i < c.len() ==> c[i] != 38);
        lemma_split_no_sep(c, 38);
        lemma_dec_pair(ps[0]);
        assert(c.len() >= 1);
        let cs = seq![c];
        assert(cs.drop_first() =~= Seq::<Seq<u8>>::empty());
        assert(dec_chunks(cs.drop_first()) == Option::Some(Seq::<(Seq<u8>, Seq<u8>)>::empty()));
        assert(seq![ps[0]] + Seq::<(Seq<u8>, Seq<u8>)>::empty() =~= ps);
    } else {
        lemma_query_front(ps);
        let head = enc_pair(ps[0]);
        let tail = query(ps.drop_first());
        lemma_pct_reserved_free(ps[0].0);
        lemma_pct_reserved_free(ps[0].1);
        assert(forall|i: int| 0 <= i < head.len() ==> head[i] != 38);
        assert(query(ps) =~= head + seq![38u8] + tail);
        lemma_split_prefix(head, tail, 38);
        lemma_query_roundtrip(ps.drop_first());
        lemma_query_nonempty(ps.drop_first());
        lemma_dec_pair(ps[0]);
        let cs = seq![head] + split_on(tail, 38);
        assert(cs[0] == head);
        assert(cs.drop_first() =~= split_on(tail, 38));
        assert(dec_chunks(split_on(tail, 38)) == Option::Some(ps.drop_first()));
        assert(seq![ps[0]] + ps.drop_first() =~= ps);
    }
}

/// The canonical query string determines the pairs: two different pair
/// sequences never share one.
pub proof fn lemma_query_injective(ps1: Seq<(Seq<u8>, Seq<u8>)>, ps2: Seq<(Seq<u8>, Seq<u8>)>)
    requires
        query(ps1) == query(ps2),
    ensures
        ps1 == ps2,
{
    lemma_query_roundtrip(ps1);
    lemma_query_roundtrip(ps2);
}

/// Leftmost, non-overlapping replacement of `pat` by `rep`.
pub open spec fn replace_all_spec(s: Seq<u8>, pat: Seq<u8>, rep: Seq<u8>) -> Seq<u8>
    recommends
        pat.len() > 0,
    decreases s.len(),
{
    if pat.len() == 0 || s.len() < pat.len() {
        s
    } else if s.take(pat.len() as int) == pat {
        rep + replace_all_spec(s.skip(pat.len() as int), pat, rep)
    } else {
        seq![s[0]] + replace_all_spec(s.skip(1), pat, rep)
    }
}

fn match_at(s: &Vec<u8>, i: usize, pat: &Vec<u8>) -> (r: bool)
    requires
        i + pat@.len() <= s@.len(),
    ensures
        r == (s@.subrange(i as int, i + pat@.len()) == pat@),
{
    let n = s.len();
    let mut j: usize = 0;
    while j < pat.len()
        invariant
            j <= pat@.len(),
            i + pat@.len() <= s@.len(),
            n == s@.len(),
            forall|k: int| 0 <= k < j ==> s@[i + k] == pat@[k],
        decreases pat@.len() - j,
    {
        proof {
            assert(i + j < s@.len());
        }
        if s[i + j] != pat[j] {
            proof {
                assert(s@.subrange(i as int, i + pat@.len())[j as int] != pat@[j as int]);
            }
            return false;
        }
        j = j + 1;
    }
    proof {
        assert(s@.subrange(i as int, i + pat@.len()) =~= pat@);
    }
    true
}

/// Replace every occurrence of `pat` in `s` by `rep`, scanning from the
/// left without overlap.
pub fn replace_all(s: &Vec<u8>, pat: &Vec<u8>, rep: &Vec<u8>) -> (r: Vec<u8>)
    requires
        pat@.len() > 0,
    ensures
        r@ == replace_all_spec(s@, pat@, rep@),
{
    let mut out: Vec<u8> = Vec::new();
    let mut i: usize = 0;
    proof {
        assert(s@.skip(0) =~= s@);
        assert(Seq::<u8>::empty() + replace_all_spec(s@, pat@, rep@) =~= replace_all_spec(
            s@,
            pat@,
            rep@,
        ));
    }
    while i < s.len()
        invariant
            i <= s@.len(),
            pat@.len() > 0,
            out@ + replace_all_spec(s@.skip(i as int), pat@, rep@) == replace_all_spec(
                s@,
                pat@,
                rep@,
            ),
        decreases s@.len() - i,
    {
        if pat.len() <= s.len() - i && match_at(s, i, pat) {
            proof {
                assert(s@.skip(i as int).take(pat@.len() as int) =~= s@.subrange(
                    i as int,
                    i + pat@.len(),
                ));
                assert(s@.skip(i as int).skip(pat@.len() as int) =~= s@.skip(i + pat@.len()));
                assert(out@ + rep@ + replace_all_spec(s@.skip(i + pat@.len()), pat@, rep@)
                    =~= out@ + (rep@ + replace_all_spec(s@.skip(i + pat@.len()), pat@, rep@)));
            }
            let mut piece = rep.clone();
            out.append(&mut piece);
            i = i + pat.len();
        } else {
            proof {
                let remaining = s@.skip(i as int);
                if remaining.len() >= pat@.len() {
                    assert(remaining.take(pat@.len() as int) =~= s@.subrange(
                        i as int,
                        i + pat@.len(),
                    ));
                    assert(remaining.take(pat@.len() as int) != pat@);
                }
                assert(remaining[0] == s@[i as int]);
                assert(remaining.skip(1) =~= s@.skip(i + 1));
                if remaining.len() < pat@.len() {
                    assert(replace_all_spec(remaining, pat@, rep@) == remaining);
                    assert(replace_all_spec(s@.skip(i + 1), pat@, rep@) == s@.skip(i + 1));
                    assert(remaining =~= seq![s@[i as int]] + s@.skip(i + 1));
                }
                assert(out@ + replace_all_spec(remaining, pat@, rep@) =~= (out@ + seq![s@[i as int]])
                    + replace_all_spec(s@.skip(i + 1), pat@, rep@));
            }
            out.push(s[i]);
            i = i + 1;
        }
    }
    proof {
        assert(s@.skip(s@.len() as int) =~= Seq::<u8>::empty());
        assert(replace_all_spec(Seq::<u8>::empty(), pat@, rep@) == Seq::<u8>::empty());
        assert(out@ + Seq::<u8>::empty() =~= out@);
    }
    out
}

} // verus!
