//! Request parameters as an association list of `(key, value)` strings,
//! kept sorted by the byte order of the UTF-8 keys — the order the
//! provider requires for signature reproducibility.

use vstd::prelude::*;
use vstd::string::StrSliceExecFns;
use vstd::utf8::encode_utf8;
use vstd::utf8::encode_utf8_decode_utf8;

verus! {

/// The byte view of a parameter list: each string as its UTF-8 bytes.
pub open spec fn pairs_bytes(ps: Seq<(String, String)>) -> Seq<(Seq<u8>, Seq<u8>)> {
    ps.map(|i: int, p: (String, String)| (encode_utf8(p.0@), encode_utf8(p.1@)))
}

/// Two strings with the same UTF-8 bytes are the same string.
pub proof fn lemma_utf8_injective(a: Seq<char>, b: Seq<char>)
    requires
        encode_utf8(a) == encode_utf8(b),
    ensures
        a == b,
{
    encode_utf8_decode_utf8(a);
    encode_utf8_decode_utf8(b);
}

/// Strict lexicographic order on byte strings: a proper prefix comes
/// first, otherwise the first differing byte decides.
pub open spec fn lex_lt(a: Seq<u8>, b: Seq<u8>) -> bool
    decreases a.len(),
{
    if b.len() == 0 {
        false
    } else if a.len() == 0 {
        true
    } else if a[0] < b[0] {
        true
    } else if a[0] > b[0] {
        false
    } else {
        lex_lt(a.skip(1), b.skip(1))
    }
}

pub proof fn lemma_lex_irrefl(a: Seq<u8>)
    ensures
        !lex_lt(a, a),
    decreases a.len(),
{
    if a.len() > 0 {
        lemma_lex_irrefl(a.skip(1));
    }
}

pub proof fn lemma_lex_connex(a: Seq<u8>, b: Seq<u8>)
    ensures
        lex_lt(a, b) || lex_lt(b, a) || a == b,
    decreases a.len(),
{
    if a.len() > 0 && b.len() > 0 && a[0] == b[0] {
        lemma_lex_connex(a.skip(1), b.skip(1));
        if !lex_lt(a, b) && !lex_lt(b, a) {
            assert(a.skip(1) == b.skip(1));
            assert(a =~= seq![a[0]] + a.skip(1));
            assert(b =~= seq![b[0]] + b.skip(1));
        }
    }
}

pub proof fn lemma_lex_trans(a: Seq<u8>, b: Seq<u8>, c: Seq<u8>)
    requires
        lex_lt(a, b),
        lex_lt(b, c),
    ensures
        lex_lt(a, c),
    decreases a.len(),
{
    if a.len() > 0 && b.len() > 0 && c.len() > 0 && a[0] == b[0] && b[0] == c[0] {
        lemma_lex_trans(a.skip(1), b.skip(1), c.skip(1));
    }
}

/// `lex_lt` looks only at the suffixes once a common prefix is fixed.
pub proof fn lemma_lex_skip(a: Seq<u8>, b: Seq<u8>, i: int)
    requires
        0 <= i <= a.len(),
        0 <= i <= b.len(),
        forall|j: int| 0 <= j < i ==> a[j] == b[j],
    ensures
        lex_lt(a, b) == lex_lt(a.skip(i), b.skip(i)),
    decreases i,
{
    if i == 0 {
        assert(a.skip(0) =~= a);
        assert(b.skip(0) =~= b);
    } else {
        assert(a.len() > 0 && b.len() > 0 && a[0] == b[0]);
        lemma_lex_skip(a.skip(1), b.skip(1), i - 1);
        assert(a.skip(1).skip(i - 1) =~= a.skip(i));
        assert(b.skip(1).skip(i - 1) =~= b.skip(i));
    }
}

/// Compare two byte strings in lexicographic order.
pub fn bytes_lt(a: &Vec<u8>, b: &Vec<u8>) -> (r: bool)
    ensures
        r == lex_lt(a@, b@),
{
    let mut i: usize = 0;
    while i < a.len() && i < b.len() && a[i] == b[i]
        invariant
            i <= a@.len(),
            i <= b@.len(),
            forall|j: int| 0 <= j < i ==> a@[j] == b@[j],
        decreases a@.len() - i,
    {
        i = i + 1;
    }
    proof {
        lemma_lex_skip(a@, b@, i as int);
    }
    if i < a.len() && i < b.len() {
        a[i] < b[i]
    } else {
        i < b.len()
    }
}

/// Whether some pair carries this key.
pub open spec fn contains_key(ps: Seq<(Seq<u8>, Seq<u8>)>, k: Seq<u8>) -> bool {
    exists|i: int| 0 <= i < ps.len() && ps[i].0 == k
}

/// The value stored under a key, first occurrence first.
pub open spec fn lookup(ps: Seq<(Seq<u8>, Seq<u8>)>, k: Seq<u8>) -> Option<Seq<u8>>
    decreases ps.len(),
{
    if ps.len() == 0 {
        Option::None
    } else if ps[0].0 == k {
        Option::Some(ps[0].1)
    } else {
        lookup(ps.drop_first(), k)
    }
}

pub proof fn lemma_lookup_some(ps: Seq<(Seq<u8>, Seq<u8>)>, k: Seq<u8>)
    ensures
        contains_key(ps, k) <==> lookup(ps, k) is Some,
    decreases ps.len(),
{
    if ps.len() > 0 {
        lemma_lookup_some(ps.drop_first(), k);
        if ps[0].0 == k {
        } else {
            if contains_key(ps, k) {
                let i = choose|i: int| 0 <= i < ps.len() && ps[i].0 == k;
                assert(ps.drop_first()[i - 1] == ps[i]);
            }
            if contains_key(ps.drop_first(), k) {
                let i = choose|i: int| 0 <= i < ps.drop_first().len() && ps.drop_first()[i].0 == k;
                assert(ps[i + 1] == ps.drop_first()[i]);
            }
        }
    }
}

/// Keys strictly ascending in byte order: sorted, and free of duplicates.
pub open spec fn sorted_strict(ps: Seq<(Seq<u8>, Seq<u8>)>) -> bool {
    forall|i: int, j: int| 0 <= i < j < ps.len() ==> lex_lt(ps[i].0, ps[j].0)
}

pub proof fn lemma_lookup_concat(a: Seq<(Seq<u8>, Seq<u8>)>, b: Seq<(Seq<u8>, Seq<u8>)>, k: Seq<u8>)
    ensures
        lookup(a + b, k) == if contains_key(a, k) {
            lookup(a, k)
        } else {
            lookup(b, k)
        },
        contains_key(a + b, k) <==> contains_key(a, k) || contains_key(b, k),
    decreases a.len(),
{
    lemma_lookup_some(a, k);
    lemma_lookup_some(b, k);
    lemma_lookup_some(a + b, k);
    if a.len() == 0 {
        assert(a + b =~= b);
    } else {
        lemma_lookup_concat(a.drop_first(), b, k);
        lemma_lookup_some(a.drop_first(), k);
        assert((a + b).drop_first() =~= a.drop_first() + b);
        assert((a + b)[0] == a[0]);
        if a[0].0 == k {
            assert(contains_key(a, k)) by {
                assert(a[0].0 == k);
            }
        } else {
            assert(lookup(a, k) == lookup(a.drop_first(), k));
            assert(lookup(a + b, k) == lookup(a.drop_first() + b, k));
        }
    }
}

/// A strictly sorted association list is determined by its lookup
/// function: sorting leaves no freedom in the representation.
pub proof fn lemma_sorted_unique(ps1: Seq<(Seq<u8>, Seq<u8>)>, ps2: Seq<(Seq<u8>, Seq<u8>)>)
    requires
        sorted_strict(ps1),
        sorted_strict(ps2),
        forall|k: Seq<u8>| #[trigger] lookup(ps1, k) == lookup(ps2, k),
    ensures
        ps1 == ps2,
    decreases ps1.len(),
{
    if ps1.len() == 0 && ps2.len() == 0 {
        assert(ps1 =~= ps2);
    } else if ps1.len() == 0 {
        assert(lookup(ps2, ps2[0].0) == Option::Some(ps2[0].1));
        assert(lookup(ps1, ps2[0].0) is None);
    } else if ps2.len() == 0 {
        assert(lookup(ps1, ps1[0].0) == Option::Some(ps1[0].1));
        assert(lookup(ps2, ps1[0].0) is None);
    } else {
        let k1 = ps1[0].0;
        let k2 = ps2[0].0;
        if k1 != k2 {
            lemma_lex_connex(k1, k2);
            if lex_lt(k1, k2) {
                assert(lookup(ps1, k1) == Option::Some(ps1[0].1));
                assert(lookup(ps2, k1) is Some);
                lemma_lookup_some(ps2, k1);
                let i = choose|i: int| 0 <= i < ps2.len() && ps2[i].0 == k1;
                assert(i > 0);
                assert(lex_lt(k2, ps2[i].0));
                lemma_lex_trans(k1, k2, k1);
                lemma_lex_irrefl(k1);
            } else {
                assert(lookup(ps2, k2) == Option::Some(ps2[0].1));
                assert(lookup(ps1, k2) is Some);
                lemma_lookup_some(ps1, k2);
                let i = choose|i: int| 0 <= i < ps1.len() && ps1[i].0 == k2;
                assert(i > 0);
                assert(lex_lt(k1, ps1[i].0));
                lemma_lex_trans(k2, k1, k2);
                lemma_lex_irrefl(k2);
            }
        }
        assert(k1 == k2);
        assert(lookup(ps1, k1) == Option::Some(ps1[0].1));
        assert(lookup(ps2, k1) == Option::Some(ps2[0].1));
        assert(ps1[0] == ps2[0]);
        let t1 = ps1.drop_first();
        let t2 = ps2.drop_first();
        assert forall|k: Seq<u8>| #[trigger] lookup(t1, k) == lookup(t2, k) by {
            if k == k1 {
                lemma_lookup_some(t1, k);
                lemma_lookup_some(t2, k);
                if contains_key(t1, k) {
                    let i = choose|i: int| 0 <= i < t1.len() && t1[i].0 == k;
                    assert(t1[i] == ps1[i + 1]);
                    assert(lex_lt(ps1[0].0, ps1[i + 1].0));
                    lemma_lex_irrefl(k1);
                }
                if contains_key(t2, k) {
                    let i = choose|i: int| 0 <= i < t2.len() && t2[i].0 == k;
                    assert(t2[i] == ps2[i + 1]);
                    assert(lex_lt(ps2[0].0, ps2[i + 1].0));
                    lemma_lex_irrefl(k1);
                }
            } else {
                assert(lookup(ps1, k) == lookup(t1, k));
                assert(lookup(ps2, k) == lookup(t2, k));
            }
        }
        assert(forall|i: int, j: int| 0 <= i < j < t1.len() ==> lex_lt(t1[i].0, t1[j].0)) by {
            assert(forall|i: int| 0 <= i < t1.len() ==> t1[i] == ps1[i + 1]);
        }
        assert(forall|i: int, j: int| 0 <= i < j < t2.len() ==> lex_lt(t2[i].0, t2[j].0)) by {
            assert(forall|i: int| 0 <= i < t2.len() ==> t2[i] == ps2[i + 1]);
        }
        lemma_sorted_unique(t1, t2);
        assert(ps1 =~= seq![ps1[0]] + t1);
        assert(ps2 =~= seq![ps2[0]] + t2);
    }
}

pub proof fn lemma_pairs_bytes_index(ps: Seq<(String, String)>, i: int)
    requires
        0 <= i < ps.len(),
    ensures
        pairs_bytes(ps)[i] == (encode_utf8(ps[i].0@), encode_utf8(ps[i].1@)),
{
}

/// The UTF-8 bytes of a string, as an owned vector.
pub fn string_bytes(s: &String) -> (r: Vec<u8>)
    ensures
        r@ == encode_utf8(s@),
{
    s.as_str().as_bytes_vec()
}

/// Insert a parameter into a sorted list unless its key is already
/// present; an existing entry is never overwritten.
pub fn insert_param(list: &mut Vec<(String, String)>, key: String, value: String)
    requires
        sorted_strict(pairs_bytes(old(list)@)),
    ensures
        sorted_strict(pairs_bytes(final(list)@)),
        forall|k: Seq<u8>|
            contains_key(pairs_bytes(final(list)@), k) <==> contains_key(
                pairs_bytes(old(list)@),
                k,
            ) || k == encode_utf8(key@),
        forall|k: Seq<u8>|
            k != encode_utf8(key@) ==> lookup(pairs_bytes(final(list)@), k) == lookup(
                pairs_bytes(old(list)@),
                k,
            ),
        lookup(pairs_bytes(final(list)@), encode_utf8(key@)) == if contains_key(
            pairs_bytes(old(list)@),
            encode_utf8(key@),
        ) {
            lookup(pairs_bytes(old(list)@), encode_utf8(key@))
        } else {
            Option::Some(encode_utf8(value@))
        },
        contains_key(pairs_bytes(old(list)@), encode_utf8(key@)) ==> final(list)@ == old(list)@,
{
    let ghost ops = pairs_bytes(old(list)@);
    let kb = string_bytes(&key);
    let n: usize = list.len();
    let mut idx: usize = 0;
    while idx < n
        invariant
            idx <= n,
            n == list@.len(),
            list@ == old(list)@,
            ops == pairs_bytes(old(list)@),
            sorted_strict(ops),
            kb@ == encode_utf8(key@),
            forall|j: int| 0 <= j < idx ==> lex_lt(ops[j].0, kb@),
        decreases n - idx,
    {
        let eb = string_bytes(&list[idx].0);
        proof {
            lemma_pairs_bytes_index(list@, idx as int);
        }
        if !bytes_lt(&eb, &kb) {
            if !bytes_lt(&kb, &eb) {
                // both orders fail: the keys are equal, the entry stays
                proof {
                    lemma_lex_connex(eb@, kb@);
                    assert(ops[idx as int].0 == kb@);
                    assert(contains_key(ops, kb@)) by {
                        assert(0 <= idx < ops.len() && ops[idx as int].0 == kb@);
                    }
                    lemma_lookup_some(ops, kb@);
                }
                return ;
            }
            proof {
                assert forall|j: int| idx <= j < list@.len() implies lex_lt(kb@, ops[j].0) by {
                    if j > idx {
                        lemma_lex_trans(kb@, ops[idx as int].0, ops[j].0);
                    }
                }
            }
            insert_at(list, idx, key, value);
            return ;
        }
        idx = idx + 1;
    }
    insert_at(list, n, key, value);
}

/// Insert a parameter into a sorted list, replacing the stored value if
/// the key is already present.
pub fn insert_param_overwrite(list: &mut Vec<(String, String)>, key: String, value: String)
    requires
        sorted_strict(pairs_bytes(old(list)@)),
    ensures
        sorted_strict(pairs_bytes(final(list)@)),
        forall|k: Seq<u8>|
            contains_key(pairs_bytes(final(list)@), k) <==> contains_key(
                pairs_bytes(old(list)@),
                k,
            ) || k == encode_utf8(key@),
        forall|k: Seq<u8>|
            k != encode_utf8(key@) ==> lookup(pairs_bytes(final(list)@), k) == lookup(
                pairs_bytes(old(list)@),
                k,
            ),
        lookup(pairs_bytes(final(list)@), encode_utf8(key@)) == Option::Some(encode_utf8(value@)),
{
    let ghost ops = pairs_bytes(old(list)@);
    let kb = string_bytes(&key);
    let n: usize = list.len();
    let mut idx: usize = 0;
    while idx < n
        invariant
            idx <= n,
            n == list@.len(),
            list@ == old(list)@,
            ops == pairs_bytes(old(list)@),
            sorted_strict(ops),
            kb@ == encode_utf8(key@),
            forall|j: int| 0 <= j < idx ==> lex_lt(ops[j].0, kb@),
        decreases n - idx,
    {
        let eb = string_bytes(&list[idx].0);
        proof {
            lemma_pairs_bytes_index(list@, idx as int);
        }
        if !bytes_lt(&eb, &kb) {
            if !bytes_lt(&kb, &eb) {
                // equal keys: replace the stored value
                proof {
                    lemma_lex_connex(eb@, kb@);
                    assert(ops[idx as int].0 == kb@);
                }
                list.remove(idx);
                proof {
                    let rps = pairs_bytes(list@);
                    assert forall|i: int| 0 <= i < rps.len() implies rps[i] == (ops.take(
                        idx as int,
                    ) + ops.skip(idx + 1))[i] by {
                        lemma_pairs_bytes_index(list@, i);
                    }
                    assert(rps =~= ops.take(idx as int) + ops.skip(idx + 1));
                    assert forall|i: int, j: int| 0 <= i < j < rps.len() implies lex_lt(
                        rps[i].0,
                        rps[j].0,
                    ) by {
                        if i < idx && j >= idx {
                            assert(rps[i] == ops[i] && rps[j] == ops[j + 1]);
                        }
                    }
                    assert forall|j: int| idx <= j < rps.len() implies lex_lt(kb@, rps[j].0) by {
                        assert(rps[j] == ops[j + 1]);
                        assert(lex_lt(ops[idx as int].0, ops[j + 1].0));
                    }
                    assert forall|k: Seq<u8>|
                        k != kb@ implies #[trigger] lookup(rps, k) == lookup(ops, k) by {
                        lemma_lookup_concat(ops.take(idx as int), ops.skip(idx + 1), k);
                        lemma_lookup_concat(
                            ops.take(idx as int),
                            seq![ops[idx as int]] + ops.skip(idx + 1),
                            k,
                        );
                        lemma_lookup_concat(seq![ops[idx as int]], ops.skip(idx + 1), k);
                        assert(ops =~= ops.take(idx as int) + (seq![ops[idx as int]] + ops.skip(
                            idx + 1,
                        )));
                        assert(seq![ops[idx as int]].drop_first() =~= Seq::<(
                            Seq<u8>,
                            Seq<u8>,
                        )>::empty());
                        assert(seq![ops[idx as int]][0].0 == kb@);
                        assert(lookup(Seq::<(Seq<u8>, Seq<u8>)>::empty(), k) is None);
                        assert(lookup(seq![ops[idx as int]], k) == lookup(
                            Seq::<(Seq<u8>, Seq<u8>)>::empty(),
                            k,
                        ));
                    }
                    assert forall|k: Seq<u8>|
                        k != kb@ implies (#[trigger] contains_key(rps, k) <==> contains_key(
                            ops,
                            k,
                        )) by {
                        lemma_lookup_some(rps, k);
                        lemma_lookup_some(ops, k);
                    }
                    assert forall|j: int| 0 <= j < idx implies lex_lt(rps[j].0, kb@) by {
                        assert(rps[j] == ops[j]);
                    }
                    if contains_key(rps, kb@) {
                        let i = choose|i: int| 0 <= i < rps.len() && rps[i].0 == kb@;
                        if i < idx {
                            lemma_lex_irrefl(kb@);
                        } else {
                            lemma_lex_irrefl(kb@);
                        }
                        assert(false);
                    }
                }
                insert_at(list, idx, key, value);
                proof {
                    assert(contains_key(ops, kb@)) by {
                        assert(ops[idx as int].0 == kb@);
                    }
                }
                return ;
            }
            proof {
                assert forall|j: int| idx <= j < list@.len() implies lex_lt(kb@, ops[j].0) by {
                    if j > idx {
                        lemma_lex_trans(kb@, ops[idx as int].0, ops[j].0);
                    }
                }
            }
            insert_at(list, idx, key, value);
            return ;
        }
        idx = idx + 1;
    }
    insert_at(list, n, key, value);
}

/// Place a new pair at `idx`, which the caller has shown to be its
/// sorted position.
fn insert_at(list: &mut Vec<(String, String)>, idx: usize, key: String, value: String)
    requires
        idx <= old(list)@.len(),
        sorted_strict(pairs_bytes(old(list)@)),
        forall|j: int| 0 <= j < idx ==> lex_lt(pairs_bytes(old(list)@)[j].0, encode_utf8(key@)),
        forall|j: int|
            idx <= j < old(list)@.len() ==> lex_lt(
                encode_utf8(key@),
                pairs_bytes(old(list)@)[j].0,
            ),
    ensures
        sorted_strict(pairs_bytes(final(list)@)),
        forall|k: Seq<u8>|
            contains_key(pairs_bytes(final(list)@), k) <==> contains_key(
                pairs_bytes(old(list)@),
                k,
            ) || k == encode_utf8(key@),
        forall|k: Seq<u8>|
            k != encode_utf8(key@) ==> lookup(pairs_bytes(final(list)@), k) == lookup(
                pairs_bytes(old(list)@),
                k,
            ),
        lookup(pairs_bytes(final(list)@), encode_utf8(key@)) == Option::Some(encode_utf8(value@)),
        !contains_key(pairs_bytes(old(list)@), encode_utf8(key@)),
{
    let ghost ops = pairs_bytes(old(list)@);
    let ghost kb = encode_utf8(key@);
    let ghost vb = encode_utf8(value@);
    proof {
        if contains_key(ops, kb) {
            let i = choose|i: int| 0 <= i < ops.len() && ops[i].0 == kb;
            lemma_lex_irrefl(kb);
            assert(false);
        }
    }
    list.insert(idx, (key, value));
    proof {
        let nps = pairs_bytes(list@);
        let front = ops.take(idx as int);
        let back = ops.skip(idx as int);
        assert forall|i: int| 0 <= i < nps.len() implies nps[i] == (front + (seq![(kb, vb)]
            + back))[i] by {
            lemma_pairs_bytes_index(list@, i);
        }
        assert(nps =~= front + (seq![(kb, vb)] + back));
        assert forall|i: int, j: int| 0 <= i < j < nps.len() implies lex_lt(
            nps[i].0,
            nps[j].0,
        ) by {
            if i < idx && j > idx {
                assert(lex_lt(ops[i].0, kb));
                assert(lex_lt(kb, ops[j - 1].0));
                lemma_lex_trans(ops[i].0, kb, ops[j - 1].0);
            }
        }
        assert forall|k: Seq<u8>| true implies #[trigger] lookup(nps, k) == (if k == kb {
            Option::Some(vb)
        } else {
            lookup(ops, k)
        }) by {
            lemma_lookup_concat(front, seq![(kb, vb)] + back, k);
            lemma_lookup_concat(seq![(kb, vb)], back, k);
            lemma_lookup_concat(front, back, k);
            assert(ops =~= front + back);
            if k == kb {
                if contains_key(front, k) {
                    let i = choose|i: int| 0 <= i < front.len() && front[i].0 == k;
                    lemma_lex_irrefl(kb);
                    assert(false);
                }
                assert(lookup(seq![(kb, vb)], k) == Option::Some(vb));
            } else {
                assert(seq![(kb, vb)].drop_first() =~= Seq::<(Seq<u8>, Seq<u8>)>::empty());
                assert(seq![(kb, vb)][0].0 == kb);
                assert(lookup(Seq::<(Seq<u8>, Seq<u8>)>::empty(), k) is None);
                assert(lookup(seq![(kb, vb)], k) == lookup(
                    Seq::<(Seq<u8>, Seq<u8>)>::empty(),
                    k,
                ));
            }
        }
        assert forall|k: Seq<u8>| true implies (#[trigger] contains_key(nps, k) <==> contains_key(
            ops,
            k,
        ) || k == kb) by {
            lemma_lookup_concat(front, seq![(kb, vb)] + back, k);
            lemma_lookup_concat(seq![(kb, vb)], back, k);
            lemma_lookup_concat(front, back, k);
            assert(ops =~= front + back);
            assert(contains_key(seq![(kb, vb)], k) <==> k == kb) by {
                if contains_key(seq![(kb, vb)], k) {
                    let i = choose|i: int|
                        0 <= i < seq![(kb, vb)].len() && seq![(kb, vb)][i].0 == k;
                    assert(i == 0);
                }
                if k == kb {
                    assert(seq![(kb, vb)][0].0 == k);
                }
            }
        }
        lemma_lookup_some(ops, kb);
    }
}

} // verus!
