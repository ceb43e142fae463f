//! The canonical request-signing protocol: common protocol parameters,
//! the doubly percent-encoded string-to-sign, and the HMAC-SHA1 signature
//! that authenticates every provider call.

use crate::params::contains_key;
use crate::params::insert_param;
use crate::params::insert_param_overwrite;
use crate::params::lemma_pairs_bytes_index;
use crate::params::lemma_sorted_unique;
use crate::params::lemma_utf8_injective;
use crate::params::lookup;
use crate::params::pairs_bytes;
use crate::params::sorted_strict;
use crate::params::string_bytes;
use crate::encoding::enc_pair;
use crate::encoding::lemma_query_injective;
use crate::encoding::pct;
use crate::encoding::percent_encode;
use crate::encoding::query;
use crate::encoding::replace_all;
use crate::encoding::replace_all_spec;
use crate::ip::is_digit;
use vstd::prelude::*;
use vstd::utf8::encode_utf8;

verus! {

/// The shape of an RFC 3339 UTC timestamp truncated to seconds: a
/// `Z`-suffixed `…-MM-DDThh:mm:ssZ` with two-digit fields. The year
/// leads and is the only part whose width varies, so the shape is
/// stated from the end.
pub open spec fn rfc3339_utc_seconds(s: Seq<char>) -> bool {
    let n = s.len() as int;
    &&& n >= 20
    &&& s[n - 1] == 'Z'
    &&& is_digit(s[n - 2]) && is_digit(s[n - 3])
    &&& s[n - 4] == ':'
    &&& is_digit(s[n - 5]) && is_digit(s[n - 6])
    &&& s[n - 7] == ':'
    &&& is_digit(s[n - 8]) && is_digit(s[n - 9])
    &&& s[n - 10] == 'T'
    &&& is_digit(s[n - 11]) && is_digit(s[n - 12])
    &&& s[n - 13] == '-'
    &&& is_digit(s[n - 14]) && is_digit(s[n - 15])
    &&& s[n - 16] == '-'
}

/// A character of the URL-safe alphabet the nonce is drawn from.
pub open spec fn is_url_safe_char(c: char) -> bool {
    c == '_' || c == '-' || ('0' <= c && c <= '9') || ('a' <= c && c <= 'z') || ('A' <= c && c
        <= 'Z')
}

/// The HMAC-SHA1 tag of `data` under `key`: a function of the two
/// arguments alone, left uninterpreted.
pub uninterp spec fn hmac_sha1_of(key: Seq<u8>, data: Seq<u8>) -> Seq<u8>;

/// The standard-alphabet, padded base64 text of a byte string, left
/// uninterpreted.
pub uninterp spec fn base64_chars(data: Seq<u8>) -> Seq<char>;

/// Relies on crypto's Hmac over Sha1 (Mac::input, Mac::result,
/// MacResult::code): the 20-byte HMAC-SHA1 tag of `data` under `key`.
#[verifier::external_body]
fn hmac_sha1(key: &Vec<u8>, data: &Vec<u8>) -> (r: Vec<u8>)
    ensures
        r@ == hmac_sha1_of(key@, data@),
        r@.len() == 20,
{
    let mut mac = crypto::hmac::Hmac::new(crypto::sha1::Sha1::new(), key.as_slice());
    crypto::mac::Mac::input(&mut mac, data.as_slice());
    let tag = crypto::mac::Mac::result(&mut mac);
    crypto::mac::MacResult::code(&tag).to_vec()
}

/// Relies on base64::encode: the standard-alphabet, padded base64 text of
/// the bytes.
#[verifier::external_body]
fn base64_encode(data: &Vec<u8>) -> (r: String)
    ensures
        r@ == base64_chars(data@),
{
    base64::encode(data.as_slice())
}

/// Relies on chrono's Utc::now and to_rfc3339_opts: the current UTC time
/// in RFC 3339 form, truncated to seconds, with the `Z` suffix. The value
/// depends on the clock, so only the shape every outcome has is promised:
/// two-digit date and time fields behind a year of whatever width.
#[verifier::external_body]
fn utc_timestamp() -> (r: String)
    ensures
        rfc3339_utc_seconds(r@),
{
    chrono::Utc::now().to_rfc3339_opts(chrono::SecondsFormat::Secs, true)
}

/// Relies on nanoid::format with its default CSPRNG and URL-safe
/// alphabet: 21 random characters. The value is random, so only the
/// length and the alphabet are promised.
#[verifier::external_body]
fn fresh_nonce() -> (r: String)
    ensures
        r@.len() == 21,
        forall|i: int| 0 <= i < r@.len() ==> is_url_safe_char(r@[i]),
{
    nanoid::format(nanoid::rngs::default, &nanoid::alphabet::SAFE, 21)
}

/// The common protocol parameters that accompany every signed call.
#[derive(Debug)]
pub struct CommonParams {
    pub format: String,
    pub version: String,
    pub access_key_id: String,
    pub signature: String,
    pub signature_method: String,
    pub timestamp: String,
    pub signature_version: String,
    pub signature_nonce: String,
}

impl Default for CommonParams {
    /// Protocol constants, a fresh nonce, and the current timestamp; the
    /// account identifier and the signature start out empty.
    fn default() -> (r: Self)
        ensures
            r.format@ == "JSON"@,
            r.version@ == "2015-01-09"@,
            r.access_key_id@.len() == 0,
            r.signature@.len() == 0,
            r.signature_method@ == "HMAC-SHA1"@,
            r.timestamp@.len() > 0 && rfc3339_utc_seconds(r.timestamp@),
            r.signature_version@ == "1.0"@,
            r.signature_nonce@.len() == 21,
            forall|i: int|
                0 <= i < r.signature_nonce@.len() ==> is_url_safe_char(r.signature_nonce@[i]),
    {
        let mut item = CommonParams {
            format: "JSON".to_owned(),
            version: "2015-01-09".to_owned(),
            access_key_id: String::new(),
            signature: String::new(),
            signature_method: "HMAC-SHA1".to_owned(),
            timestamp: String::new(),
            signature_version: "1.0".to_owned(),
            signature_nonce: String::new(),
        };
        item.signature_nonce();
        item.timestamp();
        item
    }
}

impl CommonParams {
    /// Draw a fresh one-time nonce.
    fn signature_nonce(&mut self)
        ensures
            final(self).signature_nonce@.len() == 21,
            forall|i: int|
                0 <= i < final(self).signature_nonce@.len() ==> is_url_safe_char(
                    final(self).signature_nonce@[i],
                ),
            final(self).format == old(self).format,
            final(self).version == old(self).version,
            final(self).access_key_id == old(self).access_key_id,
            final(self).signature == old(self).signature,
            final(self).signature_method == old(self).signature_method,
            final(self).timestamp == old(self).timestamp,
            final(self).signature_version == old(self).signature_version,
    {
        self.signature_nonce = fresh_nonce();
    }

    /// Stamp with the current UTC time.
    fn timestamp(&mut self)
        ensures
            rfc3339_utc_seconds(final(self).timestamp@),
            final(self).format == old(self).format,
            final(self).version == old(self).version,
            final(self).access_key_id == old(self).access_key_id,
            final(self).signature == old(self).signature,
            final(self).signature_method == old(self).signature_method,
            final(self).signature_version == old(self).signature_version,
            final(self).signature_nonce == old(self).signature_nonce,
    {
        self.timestamp = utc_timestamp();
    }

    /// Set the account identifier.
    pub fn access_key_id(&mut self, ak_id: String)
        ensures
            final(self).access_key_id == ak_id,
            final(self).format == old(self).format,
            final(self).version == old(self).version,
            final(self).signature == old(self).signature,
            final(self).signature_method == old(self).signature_method,
            final(self).timestamp == old(self).timestamp,
            final(self).signature_version == old(self).signature_version,
            final(self).signature_nonce == old(self).signature_nonce,
    {
        self.access_key_id = ak_id
    }
}

/// The seven common parameters as byte pairs; the `Signature` slot is
/// never part of this merge.
pub open spec fn common_pairs(ak_id: Seq<char>, ts: Seq<char>, nonce: Seq<char>) -> Seq<
    (Seq<u8>, Seq<u8>),
> {
    seq![
        (encode_utf8("Format"@), encode_utf8("JSON"@)),
        (encode_utf8("Version"@), encode_utf8("2015-01-09"@)),
        (encode_utf8("AccessKeyId"@), encode_utf8(ak_id)),
        (encode_utf8("SignatureMethod"@), encode_utf8("HMAC-SHA1"@)),
        (encode_utf8("Timestamp"@), encode_utf8(ts)),
        (encode_utf8("SignatureVersion"@), encode_utf8("1.0"@)),
        (encode_utf8("SignatureNonce"@), encode_utf8(nonce)),
    ]
}

/// What a lookup in the merged parameter map yields: caller parameters
/// first, common parameters only where the caller has no entry.
pub open spec fn merged_lookup(
    rp: Seq<(Seq<u8>, Seq<u8>)>,
    ak_id: Seq<char>,
    ts: Seq<char>,
    nonce: Seq<char>,
    k: Seq<u8>,
) -> Option<Seq<u8>> {
    if contains_key(rp, k) {
        lookup(rp, k)
    } else {
        lookup(common_pairs(ak_id, ts, nonce), k)
    }
}

/// Build the canonical query string of a parameter list: each key and
/// value percent-encoded, joined as `key=value` pairs with `&`.
pub fn canonical_query(list: &Vec<(String, String)>) -> (r: Vec<u8>)
    ensures
        r@ == query(pairs_bytes(list@)),
{
    let ghost ps = pairs_bytes(list@);
    let mut out: Vec<u8> = Vec::new();
    let mut i: usize = 0;
    proof {
        assert(ps.take(0) =~= Seq::<(Seq<u8>, Seq<u8>)>::empty());
    }
    while i < list.len()
        invariant
            i <= list@.len(),
            ps == pairs_bytes(list@),
            out@ == query(ps.take(i as int)),
        decreases list@.len() - i,
    {
        if i > 0 {
            out.push(38u8);  // '&'
        }
        let kb = string_bytes(&list[i].0);
        let vb = string_bytes(&list[i].1);
        let mut ek = percent_encode(&kb);
        out.append(&mut ek);
        out.push(61u8);  // '='
        let mut ev = percent_encode(&vb);
        out.append(&mut ev);
        proof {
            lemma_pairs_bytes_index(list@, i as int);
            assert(ps.take(i + 1).drop_last() =~= ps.take(i as int));
            assert(ps.take(i + 1).last() == ps[i as int]);
            assert(enc_pair(ps[i as int]) == pct(kb@) + seq![61u8] + pct(vb@));
            if i == 0 {
                assert(out@ =~= pct(kb@) + seq![61u8] + pct(vb@));
                assert(out@ =~= enc_pair(ps[0]));
            } else {
                assert(query(ps.take(i + 1)) == query(ps.take(i as int)) + seq![38u8] + enc_pair(
                    ps[i as int],
                ));
                assert(out@ =~= query(ps.take(i as int)) + seq![38u8] + enc_pair(ps[i as int]));
            }
        }
        i = i + 1;
    }
    proof {
        assert(ps.take(ps.len() as int) =~= ps);
    }
    out
}

pub open spec fn pat_pct_dot() -> Seq<u8> {
    seq![37u8, 50u8, 69u8]  // "%2E"
}

pub open spec fn rep_dot() -> Seq<u8> {
    seq![46u8]  // "."
}

pub open spec fn pat_pct_dash() -> Seq<u8> {
    seq![37u8, 50u8, 68u8]  // "%2D"
}

pub open spec fn rep_dash() -> Seq<u8> {
    seq![45u8]  // "-"
}

pub open spec fn pat_pct_space() -> Seq<u8> {
    seq![37u8, 50u8, 48u8]  // "%20"
}

pub open spec fn rep_plus() -> Seq<u8> {
    seq![43u8]  // "+"
}

pub open spec fn pat_tilde() -> Seq<u8> {
    seq![126u8]  // "~"
}

pub open spec fn rep_pct_tilde() -> Seq<u8> {
    seq![37u8, 55u8, 69u8]  // "%7E"
}

/// The provider's canonicalization quirks, applied in their fixed order.
pub open spec fn sig_substitutions(s: Seq<u8>) -> Seq<u8> {
    replace_all_spec(
        replace_all_spec(
            replace_all_spec(replace_all_spec(s, pat_pct_dot(), rep_dot()), pat_pct_dash(), rep_dash()),
            pat_pct_space(),
            rep_plus(),
        ),
        pat_tilde(),
        rep_pct_tilde(),
    )
}

/// The string the signature is computed over: the method, the encoded
/// root path, and the doubly percent-encoded canonical query after the
/// provider's substitutions.
pub open spec fn string_to_sign(method: Seq<u8>, ps: Seq<(Seq<u8>, Seq<u8>)>) -> Seq<u8> {
    method + seq![38u8, 37u8, 50u8, 70u8, 38u8]  // "&%2F&"
     + sig_substitutions(pct(query(ps)))
}

/// Assemble the string-to-sign for a sorted parameter list.
fn build_string_to_sign(request_method: &String, sorted: &Vec<(String, String)>) -> (r: Vec<u8>)
    ensures
        r@ == string_to_sign(encode_utf8(request_method@), pairs_bytes(sorted@)),
{
    let q = canonical_query(sorted);
    let doubly = percent_encode(&q);
    let pat1: Vec<u8> = vec![37u8, 50u8, 69u8];
    let rep1: Vec<u8> = vec![46u8];
    let s1 = replace_all(&doubly, &pat1, &rep1);
    let pat2: Vec<u8> = vec![37u8, 50u8, 68u8];
    let rep2: Vec<u8> = vec![45u8];
    let s2 = replace_all(&s1, &pat2, &rep2);
    let pat3: Vec<u8> = vec![37u8, 50u8, 48u8];
    let rep3: Vec<u8> = vec![43u8];
    let s3 = replace_all(&s2, &pat3, &rep3);
    let pat4: Vec<u8> = vec![126u8];
    let rep4: Vec<u8> = vec![37u8, 55u8, 69u8];
    let s4 = replace_all(&s3, &pat4, &rep4);
    let mut out = string_bytes(request_method);
    out.push(38u8);
    out.push(37u8);
    out.push(50u8);
    out.push(70u8);
    out.push(38u8);
    let mut tail = s4;
    out.append(&mut tail);
    proof {
        assert(pat1@ =~= pat_pct_dot());
        assert(rep1@ =~= rep_dot());
        assert(pat2@ =~= pat_pct_dash());
        assert(rep2@ =~= rep_dash());
        assert(pat3@ =~= pat_pct_space());
        assert(rep3@ =~= rep_plus());
        assert(pat4@ =~= pat_tilde());
        assert(rep4@ =~= rep_pct_tilde());
        assert(out@ =~= string_to_sign(encode_utf8(request_method@), pairs_bytes(sorted@)));
    }
    out
}

/// Sign a request: merge the caller's parameters with the common
/// protocol parameters, sort them by key bytes, and compute the
/// HMAC-SHA1 signature of the resulting string-to-sign under the
/// secret followed by `&`.
pub fn sign(
    request_method: String,
    ak_secret: String,
    ak_id: String,
    request_params: Vec<(String, String)>,
    timestamp: String,
    signature_nonce: String,
) -> (res: (String, Vec<(String, String)>))
    requires
        forall|i: int, j: int|
            0 <= i < j < request_params@.len() ==> request_params@[i].0@ != request_params@[j].0@,
        forall|i: int|
            0 <= i < request_params@.len() ==> request_params@[i].0@ != "Signature"@,
    ensures
        sorted_strict(pairs_bytes(res.1@)),
        forall|k: Seq<u8>| #[trigger]
            lookup(pairs_bytes(res.1@), k) == merged_lookup(
                pairs_bytes(request_params@),
                ak_id@,
                timestamp@,
                signature_nonce@,
                k,
            ),
        res.0@ == base64_chars(
            hmac_sha1_of(
                encode_utf8(ak_secret@) + seq![38u8],
                string_to_sign(encode_utf8(request_method@), pairs_bytes(res.1@)),
            ),
        ),
{
    let ghost rp = pairs_bytes(request_params@);
    let ghost cp = common_pairs(ak_id@, timestamp@, signature_nonce@);

    // the common protocol parameters, in their protocol order
    let mut commons: Vec<(String, String)> = Vec::new();
    commons.push(("Format".to_owned(), "JSON".to_owned()));
    commons.push(("Version".to_owned(), "2015-01-09".to_owned()));
    commons.push(("AccessKeyId".to_owned(), ak_id.clone()));
    commons.push(("SignatureMethod".to_owned(), "HMAC-SHA1".to_owned()));
    commons.push(("Timestamp".to_owned(), timestamp.clone()));
    commons.push(("SignatureVersion".to_owned(), "1.0".to_owned()));
    commons.push(("SignatureNonce".to_owned(), signature_nonce.clone()));
    proof {
        assert forall|i: int| 0 <= i < commons@.len() implies pairs_bytes(commons@)[i]
            == cp[i] by {
            lemma_pairs_bytes_index(commons@, i);
        }
        assert(pairs_bytes(commons@) =~= cp);
    }

    // common parameters first; the caller's own overwrite them below
    let mut sorted: Vec<(String, String)> = Vec::new();
    let ghost empty_ps = pairs_bytes(sorted@);
    proof {
        assert(empty_ps =~= Seq::<(Seq<u8>, Seq<u8>)>::empty());
        assert(cp.take(0) =~= Seq::<(Seq<u8>, Seq<u8>)>::empty());
    }
    let mut j: usize = 0;
    while j < commons.len()
        invariant
            j <= commons@.len(),
            pairs_bytes(commons@) == cp,
            sorted_strict(pairs_bytes(sorted@)),
            forall|k: Seq<u8>| #[trigger]
                lookup(pairs_bytes(sorted@), k) == lookup(cp.take(j as int), k),
            forall|k: Seq<u8>| #[trigger]
                contains_key(pairs_bytes(sorted@), k) == contains_key(cp.take(j as int), k),
        decreases commons@.len() - j,
    {
        let key = commons[j].0.clone();
        let value = commons[j].1.clone();
        let ghost before = pairs_bytes(sorted@);
        proof {
            lemma_pairs_bytes_index(commons@, j as int);
        }
        insert_param(&mut sorted, key, value);
        proof {
            let kb = cp[j as int].0;
            let vb = cp[j as int].1;
            assert(cp.take(j + 1) =~= cp.take(j as int) + seq![cp[j as int]]);
            assert forall|k: Seq<u8>| true implies #[trigger] lookup(pairs_bytes(sorted@), k)
                == lookup(cp.take(j + 1), k) by {
                crate::params::lemma_lookup_concat(cp.take(j as int), seq![cp[j as int]], k);
                crate::params::lemma_lookup_some(before, k);
                crate::params::lemma_lookup_some(cp.take(j as int), k);
                if k == kb {
                    assert(seq![cp[j as int]][0].0 == k);
                    assert(lookup(seq![cp[j as int]], k) == Option::Some(vb));
                } else {
                    assert(seq![cp[j as int]].drop_first() =~= Seq::<(Seq<u8>, Seq<u8>)>::empty());
                    assert(lookup(Seq::<(Seq<u8>, Seq<u8>)>::empty(), k) is None);
                    assert(lookup(seq![cp[j as int]], k) == lookup(
                        Seq::<(Seq<u8>, Seq<u8>)>::empty(),
                        k,
                    ));
                }
            }
            assert forall|k: Seq<u8>| true implies #[trigger] contains_key(pairs_bytes(sorted@), k)
                == contains_key(cp.take(j + 1), k) by {
                crate::params::lemma_lookup_concat(cp.take(j as int), seq![cp[j as int]], k);
                crate::params::lemma_lookup_some(pairs_bytes(sorted@), k);
                crate::params::lemma_lookup_some(cp.take(j + 1), k);
                assert(lookup(pairs_bytes(sorted@), k) == lookup(cp.take(j + 1), k));
            }
        }
        j = j + 1;
    }
    proof {
        assert(cp.take(cp.len() as int) =~= cp);
    }

    // the caller's request parameters, distinct keys, caller wins
    proof {
        assert forall|i1: int, j1: int| 0 <= i1 < j1 < rp.len() implies rp[i1].0 != rp[j1].0 by {
            lemma_pairs_bytes_index(request_params@, i1);
            lemma_pairs_bytes_index(request_params@, j1);
            if rp[i1].0 == rp[j1].0 {
                lemma_utf8_injective(request_params@[i1].0@, request_params@[j1].0@);
            }
        }
        assert(rp.take(0) =~= Seq::<(Seq<u8>, Seq<u8>)>::empty());
    }
    let mut i: usize = 0;
    while i < request_params.len()
        invariant
            i <= request_params@.len(),
            rp == pairs_bytes(request_params@),
            cp == common_pairs(ak_id@, timestamp@, signature_nonce@),
            forall|i1: int, j1: int| 0 <= i1 < j1 < rp.len() ==> rp[i1].0 != rp[j1].0,
            sorted_strict(pairs_bytes(sorted@)),
            forall|k: Seq<u8>| #[trigger]
                lookup(pairs_bytes(sorted@), k) == if contains_key(rp.take(i as int), k) {
                    lookup(rp.take(i as int), k)
                } else {
                    lookup(cp, k)
                },
        decreases request_params@.len() - i,
    {
        let key = request_params[i].0.clone();
        let value = request_params[i].1.clone();
        let ghost before = pairs_bytes(sorted@);
        proof {
            lemma_pairs_bytes_index(request_params@, i as int);
        }
        insert_param_overwrite(&mut sorted, key, value);
        proof {
            let kb = rp[i as int].0;
            let vb = rp[i as int].1;
            assert(rp.take(i + 1) =~= rp.take(i as int) + seq![rp[i as int]]);
            assert forall|k: Seq<u8>| true implies #[trigger] lookup(pairs_bytes(sorted@), k) == (
            if contains_key(rp.take(i + 1), k) {
                lookup(rp.take(i + 1), k)
            } else {
                lookup(cp, k)
            }) by {
                crate::params::lemma_lookup_concat(rp.take(i as int), seq![rp[i as int]], k);
                crate::params::lemma_lookup_some(rp.take(i as int), k);
                crate::params::lemma_lookup_some(rp.take(i + 1), k);
                if k == kb {
                    assert(seq![rp[i as int]][0].0 == k);
                    assert(lookup(seq![rp[i as int]], k) == Option::Some(vb));
                } else {
                    assert(seq![rp[i as int]].drop_first() =~= Seq::<(Seq<u8>, Seq<u8>)>::empty());
                    assert(lookup(Seq::<(Seq<u8>, Seq<u8>)>::empty(), k) is None);
                    assert(lookup(seq![rp[i as int]], k) == lookup(
                        Seq::<(Seq<u8>, Seq<u8>)>::empty(),
                        k,
                    ));
                }
            }
        }
        i = i + 1;
    }
    proof {
        assert(rp.take(rp.len() as int) =~= rp);
        assert forall|k: Seq<u8>| true implies #[trigger] lookup(pairs_bytes(sorted@), k)
            == merged_lookup(rp, ak_id@, timestamp@, signature_nonce@, k) by {
            assert(lookup(pairs_bytes(sorted@), k) == if contains_key(rp, k) {
                lookup(rp, k)
            } else {
                lookup(cp, k)
            });
        }
    }

    let data = build_string_to_sign(&request_method, &sorted);
    let mut key = string_bytes(&ak_secret);
    key.push(38u8);  // '&'
    proof {
        assert(key@ =~= encode_utf8(ak_secret@) + seq![38u8]);
    }
    let tag = hmac_sha1(&key, &data);
    let signature = base64_encode(&tag);
    (signature, sorted)
}

/// Everything `signed_query` promises of its result, for the timestamp
/// and nonce it drew: the `Signature` entry leads, and the rest is the
/// sorted merged parameter list that the signature was computed over.
pub open spec fn signed_query_ok(
    res: Seq<(String, String)>,
    ak_id: Seq<char>,
    ak_secret: Seq<char>,
    rp: Seq<(Seq<u8>, Seq<u8>)>,
    ts: Seq<char>,
    nonce: Seq<char>,
) -> bool {
    &&& res.len() >= 1
    &&& res[0].0@ == "Signature"@
    &&& sorted_strict(pairs_bytes(res.drop_first()))
    &&& (forall|k: Seq<u8>| #[trigger]
        lookup(pairs_bytes(res.drop_first()), k) == merged_lookup(rp, ak_id, ts, nonce, k))
    &&& res[0].1@ == base64_chars(
        hmac_sha1_of(
            encode_utf8(ak_secret) + seq![38u8],
            string_to_sign(encode_utf8("GET"@), pairs_bytes(res.drop_first())),
        ),
    )
    &&& rfc3339_utc_seconds(ts)
    &&& nonce.len() == 21
    &&& (forall|i: int| 0 <= i < nonce.len() ==> is_url_safe_char(nonce[i]))
}

/// Sign a GET request with a fresh timestamp and nonce: the full
/// parameter list for the final URL, the `Signature` entry first.
#[verifier::rlimit(100)]
#[verifier::spinoff_prover]
pub fn signed_query(ak_id: String, ak_secret: String, request_params: Vec<(String, String)>) -> (res:
    Vec<(String, String)>)
    requires
        forall|i: int, j: int|
            0 <= i < j < request_params@.len() ==> request_params@[i].0@ != request_params@[j].0@,
        forall|i: int|
            0 <= i < request_params@.len() ==> request_params@[i].0@ != "Signature"@,
    ensures
        exists|ts: Seq<char>, nonce: Seq<char>|
            signed_query_ok(
                res@,
                ak_id@,
                ak_secret@,
                pairs_bytes(request_params@),
                ts,
                nonce,
            ),
{
    let mut common = CommonParams::default();
    common.access_key_id(ak_id);
    let ghost ts = common.timestamp@;
    let ghost nonce = common.signature_nonce@;
    let (signature, sorted) = sign(
        "GET".to_owned(),
        ak_secret,
        common.access_key_id,
        request_params,
        common.timestamp,
        common.signature_nonce,
    );
    let mut res: Vec<(String, String)> = Vec::new();
    res.push(("Signature".to_owned(), signature));
    let mut tail = sorted;
    let ghost sorted_view = tail@;
    res.append(&mut tail);
    proof {
        let ghost rp = pairs_bytes(request_params@);
        assert(res@.drop_first() =~= sorted_view);
        assert(res@.len() >= 1);
        assert(res@[0].0@ == "Signature"@);
        assert(sorted_strict(pairs_bytes(res@.drop_first())));
        assert forall|k: Seq<u8>| #[trigger] lookup(pairs_bytes(res@.drop_first()), k)
            == merged_lookup(rp, common.access_key_id@, ts, nonce, k) by {
            assert(lookup(pairs_bytes(sorted_view), k) == merged_lookup(
                rp,
                common.access_key_id@,
                ts,
                nonce,
                k,
            ));
        }
        assert(res@[0].1@ == base64_chars(
            hmac_sha1_of(
                encode_utf8(ak_secret@) + seq![38u8],
                string_to_sign(encode_utf8("GET"@), pairs_bytes(res@.drop_first())),
            ),
        ));
        assert(common.access_key_id@ == ak_id@);
        assert(rfc3339_utc_seconds(ts));
        assert(nonce.len() == 21 && forall|i: int|
            0 <= i < nonce.len() ==> is_url_safe_char(nonce[i]));
        assert(signed_query_ok(res@, ak_id@, ak_secret@, rp, ts, nonce));
    }
    res
}

/// Signing is deterministic: two sorted parameter lists that carry the
/// same mapping are the same list byte for byte, so the string-to-sign
/// and with it the signature agree.
pub proof fn lemma_sign_deterministic(
    l1: Seq<(String, String)>,
    l2: Seq<(String, String)>,
    method: Seq<u8>,
    key: Seq<u8>,
)
    requires
        sorted_strict(pairs_bytes(l1)),
        sorted_strict(pairs_bytes(l2)),
        forall|k: Seq<u8>| #[trigger] lookup(pairs_bytes(l1), k) == lookup(pairs_bytes(l2), k),
    ensures
        pairs_bytes(l1) == pairs_bytes(l2),
        string_to_sign(method, pairs_bytes(l1)) == string_to_sign(method, pairs_bytes(l2)),
        base64_chars(hmac_sha1_of(key, string_to_sign(method, pairs_bytes(l1)))) == base64_chars(
            hmac_sha1_of(key, string_to_sign(method, pairs_bytes(l2))),
        ),
{
    lemma_sorted_unique(pairs_bytes(l1), pairs_bytes(l2));
}

/// Changing any parameter value changes the canonical query string: two
/// sorted lists that disagree at some key never share one.
pub proof fn lemma_changed_value_changes_query(
    l1: Seq<(Seq<u8>, Seq<u8>)>,
    l2: Seq<(Seq<u8>, Seq<u8>)>,
    k: Seq<u8>,
)
    requires
        lookup(l1, k) != lookup(l2, k),
    ensures
        query(l1) != query(l2),
{
    if query(l1) == query(l2) {
        lemma_query_injective(l1, l2);
    }
}

/// The tagged result of one provider call: the decoded success payload,
/// or the provider's structured error.
#[derive(Debug)]
pub enum CommonResponse<T, E> {
    Failure(E),
    Success(T),
}

/// The provider's structured error envelope.
#[derive(Debug, Clone, PartialEq, Eq)]
pub struct ErrorResponse {
    pub request_id: String,
    pub recommend: String,
    pub code: String,
    pub message: String,
    pub host_id: String,
}

} // verus!
