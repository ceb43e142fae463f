//! The record reconciler: splitting configured names into label and
//! zone, classifying the provider's existing records, and planning the
//! minimal set of update, re-enable and create calls for one cycle.

use crate::cli::Options;
use crate::error::DdnsError;
use crate::ip::ip_v4;
use crate::ip::ip_v6;
use crate::ip::IPOption;
use crate::params::contains_key;
use crate::params::insert_param_overwrite;
use crate::params::lemma_utf8_injective;
use crate::params::lookup;
use crate::params::pairs_bytes;
use crate::params::sorted_strict;
use vstd::prelude::*;
use vstd::string::StrSliceExecFns;
use vstd::utf8::encode_utf8;

verus! {

/// One existing record as the provider returns it.
#[derive(Debug, Clone, PartialEq, Eq)]
pub struct Record {
    pub rr: String,
    pub line: String,
    pub status: String,
    pub locked: bool,
    pub kind: String,
    pub domain_name: String,
    pub value: String,
    pub record_id: String,
    pub ttl: i32,
    pub weight: i32,
}

/// The payload of a successful record query.
#[derive(Debug)]
pub struct RecordsResponse {
    pub request_id: String,
    pub page_number: i32,
    pub total_count: i32,
    pub page_size: i32,
    pub domain_records: DomainRecords,
}

#[derive(Debug)]
pub struct DomainRecords {
    pub record: Vec<Record>,
}

/// Index of the first occurrence of `c` in `s`, or `-1`.
pub open spec fn find_ch(s: Seq<char>, c: char) -> int
    decreases s.len(),
{
    if s.len() == 0 {
        -1
    } else if s[0] == c {
        0
    } else {
        let r = find_ch(s.skip(1), c);
        if r < 0 {
            -1
        } else {
            r + 1
        }
    }
}

pub proof fn lemma_find_ch(s: Seq<char>, c: char)
    ensures
        find_ch(s, c) >= 0 ==> find_ch(s, c) < s.len() && s[find_ch(s, c)] == c && (forall|j: int|
            0 <= j < find_ch(s, c) ==> s[j] != c),
        find_ch(s, c) < 0 ==> forall|j: int| 0 <= j < s.len() ==> s[j] != c,
    decreases s.len(),
{
    if s.len() > 0 && s[0] != c {
        lemma_find_ch(s.skip(1), c);
        let r = find_ch(s.skip(1), c);
        assert(forall|j: int| 0 <= j < s.skip(1).len() ==> s.skip(1)[j] == s[j + 1]);
        if r >= 0 {
            assert(s[r + 1] == s.skip(1)[r]);
            assert(forall|j: int| 1 <= j < r + 1 ==> s[j] == s.skip(1)[j - 1]);
        } else {
            assert(forall|j: int| 1 <= j < s.len() ==> s[j] == s.skip(1)[j - 1]);
        }
    }
}

/// Split on a separator character; the separator itself is dropped.
pub open spec fn split_ch(s: Seq<char>, c: char) -> Seq<Seq<char>>
    decreases s.len(),
{
    let f = find_ch(s, c);
    if 0 <= f && f < s.len() {
        seq![s.take(f)] + split_ch(s.skip(f + 1), c)
    } else {
        seq![s]
    }
}

pub proof fn lemma_split_ch_no_sep(s: Seq<char>, c: char)
    requires
        forall|i: int| 0 <= i < s.len() ==> s[i] != c,
    ensures
        split_ch(s, c) == seq![s],
{
    lemma_find_ch(s, c);
    if find_ch(s, c) >= 0 {
        assert(s[find_ch(s, c)] == c);
        assert(false);
    }
}

pub proof fn lemma_split_ch_prefix(a: Seq<char>, rest: Seq<char>, c: char)
    requires
        forall|i: int| 0 <= i < a.len() ==> a[i] != c,
    ensures
        split_ch(a + seq![c] + rest, c) == seq![a] + split_ch(rest, c),
{
    let s = a + seq![c] + rest;
    lemma_find_ch(s, c);
    let f = find_ch(s, c);
    assert(s[a.len() as int] == c);
    if f < 0 {
        assert(false);
    }
    if f > a.len() {
        assert(s[a.len() as int] == c && a.len() < f);
        assert(false);
    }
    if f < a.len() {
        assert(s[f] == a[f]);
        assert(false);
    }
    assert(f == a.len());
    assert(s.take(f) =~= a);
    assert(s.skip(f + 1) =~= rest);
    assert(split_ch(s, c) =~= seq![a] + split_ch(rest, c));
}

/// Join parts with a separator character.
pub open spec fn join_ch(parts: Seq<Seq<char>>, c: char) -> Seq<char>
    decreases parts.len(),
{
    if parts.len() == 0 {
        Seq::empty()
    } else if parts.len() == 1 {
        parts[0]
    } else {
        join_ch(parts.drop_last(), c) + seq![c] + parts.last()
    }
}

/// The dot-separated labels of a configured name.
pub open spec fn labels_of(d: Seq<char>) -> Seq<Seq<char>> {
    split_ch(d, '.')
}

/// The subdomain label: all labels but the last two, joined with dots.
pub open spec fn label_of(d: Seq<char>) -> Seq<char> {
    join_ch(labels_of(d).take(labels_of(d).len() - 2), '.')
}

/// The registrable zone: the last two labels, joined with a dot.
pub open spec fn zone_of(d: Seq<char>) -> Seq<char> {
    join_ch(labels_of(d).skip(labels_of(d).len() - 2), '.')
}

/// The zone that the desired record set stores for a label: that of the
/// last configured name carrying the label.
pub open spec fn desired_zone(domains: Seq<Seq<char>>, label: Seq<char>) -> Option<Seq<char>>
    decreases domains.len(),
{
    if domains.len() == 0 {
        Option::None
    } else if label_of(domains.last()) == label {
        Option::Some(zone_of(domains.last()))
    } else {
        desired_zone(domains.drop_last(), label)
    }
}

pub open spec fn domain_views(domains: Seq<String>) -> Seq<Seq<char>> {
    domains.map(|i: int, d: String| d@)
}

/// Split a string on a separator character.
pub fn split_string(st: &str, sep: char) -> (parts: Vec<String>)
    ensures
        parts@.map(|i: int, p: String| p@) == split_ch(st@, sep),
{
    let n = st.unicode_len();
    let mut parts: Vec<String> = Vec::new();
    let mut start: usize = 0;
    let mut i: usize = 0;
    proof {
        assert(st@.skip(0) =~= st@);
        assert(parts@.map(|x: int, p: String| p@) =~= Seq::<Seq<char>>::empty());
        assert(Seq::<Seq<char>>::empty() + split_ch(st@, sep) =~= split_ch(st@, sep));
    }
    while i < n
        invariant
            start <= i <= n,
            n == st@.len(),
            forall|j: int| start <= j < i ==> st@[j] != sep,
            split_ch(st@, sep) == parts@.map(|x: int, p: String| p@) + split_ch(
                st@.skip(start as int),
                sep,
            ),
        decreases n - i,
    {
        if st.get_char(i) == sep {
            let piece = st.substring_char(start, i).to_owned();
            proof {
                let seg = st@.subrange(start as int, i as int);
                assert(piece@ == seg);
                assert(st@.skip(start as int) =~= seg + seq![sep] + st@.skip(i + 1));
                lemma_split_ch_prefix(seg, st@.skip(i + 1), sep);
                assert((parts@ + seq![piece]).map(|x: int, p: String| p@) =~= parts@.map(
                    |x: int, p: String| p@,
                ) + seq![seg]);
                assert(parts@.push(piece) =~= parts@ + seq![piece]);
            }
            parts.push(piece);
            start = i + 1;
        }
        i = i + 1;
    }
    let piece = st.substring_char(start, n).to_owned();
    proof {
        let seg = st@.subrange(start as int, n as int);
        assert(piece@ == seg);
        assert(st@.skip(start as int) =~= seg);
        lemma_split_ch_no_sep(seg, sep);
        assert((parts@ + seq![piece]).map(|x: int, p: String| p@) =~= parts@.map(
            |x: int, p: String| p@,
        ) + seq![seg]);
        assert(parts@.push(piece) =~= parts@ + seq![piece]);
    }
    parts.push(piece);
    parts
}

/// Join `parts[from .. to]` with dots.
fn join_range(parts: &Vec<String>, from: usize, to: usize) -> (r: String)
    requires
        from <= to <= parts@.len(),
    ensures
        r@ == join_ch(parts@.map(|i: int, p: String| p@).subrange(from as int, to as int), '.'),
{
    let ghost views = parts@.map(|i: int, p: String| p@);
    let mut out = String::new();
    let mut i: usize = from;
    proof {
        reveal_strlit(".");
        assert(views.subrange(from as int, from as int) =~= Seq::<Seq<char>>::empty());
    }
    while i < to
        invariant
            from <= i <= to <= parts@.len(),
            views == parts@.map(|x: int, p: String| p@),
            out@ == join_ch(views.subrange(from as int, i as int), '.'),
        decreases to - i,
    {
        proof {
            reveal_strlit(".");
            assert("."@ =~= seq!['.']);
        }
        if i > from {
            out.append(".");
        }
        out.append(parts[i].as_str());
        proof {
            let sub = views.subrange(from as int, i + 1);
            assert(sub.drop_last() =~= views.subrange(from as int, i as int));
            assert(sub.last() == views[i as int]);
            if i == from {
                assert(out@ =~= views[i as int]);
                assert(sub.len() == 1);
            } else {
                assert(out@ =~= join_ch(views.subrange(from as int, i as int), '.') + seq!['.']
                    + views[i as int]);
            }
        }
        i = i + 1;
    }
    out
}

/// Split every configured name into its subdomain label and registrable
/// zone. A name with fewer than three labels is rejected before any
/// network call; labels are unique in the result, the last name wins.
pub fn split(opt: &Options) -> (r: Result<Vec<(String, String)>, DdnsError>)
    ensures
        r is Err <==> exists|j: int|
            0 <= j < opt.domains@.len() && labels_of(opt.domains@[j]@).len() <= 2,
        r is Ok ==> {
            let out = pairs_bytes(r->Ok_0@);
            &&& sorted_strict(out)
            &&& (forall|lb: Seq<char>| #[trigger]
                lookup(out, encode_utf8(lb)) == (match desired_zone(
                    domain_views(opt.domains@),
                    lb,
                ) {
                    Option::Some(z) => Option::Some(encode_utf8(z)),
                    Option::None => Option::<Seq<u8>>::None,
                }))
            &&& (forall|k: Seq<u8>| #[trigger]
                contains_key(out, k) ==> exists|j: int|
                    0 <= j < opt.domains@.len() && k == encode_utf8(label_of(opt.domains@[j]@)))
        },
{
    let ghost dviews = domain_views(opt.domains@);
    let mut out: Vec<(String, String)> = Vec::new();
    let mut i: usize = 0;
    proof {
        assert(dviews.take(0) =~= Seq::<Seq<char>>::empty());
    }
    while i < opt.domains.len()
        invariant
            i <= opt.domains@.len(),
            dviews == domain_views(opt.domains@),
            sorted_strict(pairs_bytes(out@)),
            forall|j: int| 0 <= j < i ==> labels_of(opt.domains@[j]@).len() >= 3,
            forall|lb: Seq<char>| #[trigger]
                lookup(pairs_bytes(out@), encode_utf8(lb)) == (match desired_zone(
                    dviews.take(i as int),
                    lb,
                ) {
                    Option::Some(z) => Option::Some(encode_utf8(z)),
                    Option::None => Option::<Seq<u8>>::None,
                }),
            forall|k: Seq<u8>| #[trigger]
                contains_key(pairs_bytes(out@), k) ==> exists|j: int|
                    0 <= j < i && k == encode_utf8(label_of(opt.domains@[j]@)),
        decreases opt.domains@.len() - i,
    {
        let domain = &opt.domains[i];
        let parts = split_string(domain.as_str(), '.');
        let l = parts.len();
        if l <= 2 {
            proof {
                assert(labels_of(opt.domains@[i as int]@).len() <= 2);
            }
            return Result::Err(DdnsError::InvalidDomain(domain.clone()));
        }
        let record = join_range(&parts, 0, l - 2);
        let zone = join_range(&parts, l - 2, l);
        proof {
            let pv = parts@.map(|x: int, p: String| p@);
            assert(pv.subrange(0, l - 2) =~= labels_of(domain@).take(labels_of(domain@).len()
                - 2));
            assert(pv.subrange(l - 2, l as int) =~= labels_of(domain@).skip(labels_of(
                domain@,
            ).len() - 2));
            assert(record@ == label_of(domain@));
            assert(zone@ == zone_of(domain@));
        }
        let ghost before = pairs_bytes(out@);
        insert_param_overwrite(&mut out, record, zone);
        proof {
            assert(dviews.take(i + 1).drop_last() =~= dviews.take(i as int));
            assert(dviews.take(i + 1).last() == opt.domains@[i as int]@);
            assert forall|lb: Seq<char>| true implies #[trigger] lookup(
                pairs_bytes(out@),
                encode_utf8(lb),
            ) == (match desired_zone(dviews.take(i + 1), lb) {
                Option::Some(z) => Option::Some(encode_utf8(z)),
                Option::None => Option::<Seq<u8>>::None,
            }) by {
                if lb == label_of(opt.domains@[i as int]@) {
                } else {
                    if encode_utf8(lb) == encode_utf8(label_of(opt.domains@[i as int]@)) {
                        lemma_utf8_injective(lb, label_of(opt.domains@[i as int]@));
                    }
                }
            }
            assert forall|k: Seq<u8>| #[trigger] contains_key(pairs_bytes(out@), k) implies exists|
                j: int,
            | 0 <= j < i + 1 && k == encode_utf8(label_of(opt.domains@[j]@)) by {
                if k != encode_utf8(label_of(opt.domains@[i as int]@)) {
                    assert(contains_key(before, k));
                    let j = choose|j: int|
                        0 <= j < i && k == encode_utf8(label_of(opt.domains@[j]@));
                    assert(0 <= j < i + 1 && k == encode_utf8(label_of(opt.domains@[j]@)));
                } else {
                    assert(0 <= i < i + 1 && k == encode_utf8(label_of(opt.domains@[i as int]@)));
                }
            }
        }
        i = i + 1;
    }
    proof {
        assert(dviews.take(dviews.len() as int) =~= dviews);
    }
    Result::Ok(out)
}

/// One step of the plan a cycle executes against the provider, or a
/// recorded reason for touching nothing.
#[derive(Debug, Clone, PartialEq, Eq)]
pub enum RecordAction {
    Update { record_id: String, rr: String, domain_name: String, kind: String, value: String },
    Enable { record_id: String },
    Add { rr: String, domain_name: String, kind: String, value: String },
    SkipUnchanged { record_id: String },
    SkipNoIpv6 { record_id: String },
}

/// The mathematical shadow of a `RecordAction`: the same shape over
/// character sequences.
pub enum ActionView {
    Update {
        record_id: Seq<char>,
        rr: Seq<char>,
        domain_name: Seq<char>,
        kind: Seq<char>,
        value: Seq<char>,
    },
    Enable { record_id: Seq<char> },
    Add { rr: Seq<char>, domain_name: Seq<char>, kind: Seq<char>, value: Seq<char> },
    SkipUnchanged { record_id: Seq<char> },
    SkipNoIpv6 { record_id: Seq<char> },
}

pub open spec fn action_view(a: RecordAction) -> ActionView {
    match a {
        RecordAction::Update { record_id, rr, domain_name, kind, value } => ActionView::Update {
            record_id: record_id@,
            rr: rr@,
            domain_name: domain_name@,
            kind: kind@,
            value: value@,
        },
        RecordAction::Enable { record_id } => ActionView::Enable { record_id: record_id@ },
        RecordAction::Add { rr, domain_name, kind, value } => ActionView::Add {
            rr: rr@,
            domain_name: domain_name@,
            kind: kind@,
            value: value@,
        },
        RecordAction::SkipUnchanged { record_id } => ActionView::SkipUnchanged {
            record_id: record_id@,
        },
        RecordAction::SkipNoIpv6 { record_id } => ActionView::SkipNoIpv6 {
            record_id: record_id@,
        },
    }
}

pub open spec fn actions_view(s: Seq<RecordAction>) -> Seq<ActionView> {
    s.map(|i: int, a: RecordAction| action_view(a))
}

/// What one existing record contributes to the update plan: skip when
/// the stored value already matches, skip with a warning when an `AAAA`
/// record has no discovered IPv6, otherwise an update, followed by a
/// re-enable when the record was disabled.
pub open spec fn record_update_view(r: Record, v4: Seq<char>, v6: Option<Seq<char>>) -> Seq<
    ActionView,
> {
    if r.kind@ == "AAAA"@ {
        match v6 {
            Option::None => seq![ActionView::SkipNoIpv6 { record_id: r.record_id@ }],
            Option::Some(v6v) => {
                if r.value@ == v6v {
                    seq![ActionView::SkipUnchanged { record_id: r.record_id@ }]
                } else {
                    seq![
                        ActionView::Update {
                            record_id: r.record_id@,
                            rr: r.rr@,
                            domain_name: r.domain_name@,
                            kind: r.kind@,
                            value: v6v,
                        },
                    ] + if r.status@ == "DISABLE"@ {
                        seq![ActionView::Enable { record_id: r.record_id@ }]
                    } else {
                        Seq::empty()
                    }
                }
            },
        }
    } else {
        if r.value@ == v4 {
            seq![ActionView::SkipUnchanged { record_id: r.record_id@ }]
        } else {
            seq![
                ActionView::Update {
                    record_id: r.record_id@,
                    rr: r.rr@,
                    domain_name: r.domain_name@,
                    kind: r.kind@,
                    value: v4,
                },
            ] + if r.status@ == "DISABLE"@ {
                seq![ActionView::Enable { record_id: r.record_id@ }]
            } else {
                Seq::empty()
            }
        }
    }
}

/// The whole update plan: each existing record's contribution, in order.
pub open spec fn update_plan_view(records: Seq<Record>, v4: Seq<char>, v6: Option<Seq<char>>) -> Seq<
    ActionView,
>
    decreases records.len(),
{
    if records.len() == 0 {
        Seq::empty()
    } else {
        update_plan_view(records.drop_last(), v4, v6) + record_update_view(records.last(), v4, v6)
    }
}

fn v4_of(ips: &IPOption) -> (r: String)
    ensures
        r@ == ip_v4(*ips),
{
    match ips {
        IPOption::IPV4(v4) => v4.clone(),
        IPOption::IPAll(v4, _) => v4.clone(),
    }
}

fn v6_of(ips: &IPOption) -> (r: Option<String>)
    ensures
        r is Some <==> ip_v6(*ips) is Some,
        r is Some ==> r->0@ == ip_v6(*ips)->0,
{
    match ips {
        IPOption::IPV4(_) => Option::None,
        IPOption::IPAll(_, v6) => Option::Some(v6.clone()),
    }
}

/// Decide, per existing record, whether to update, re-enable, or skip.
/// No network call is planned for a record whose stored value already
/// equals the discovered address of its type.
pub fn update_records(ips: &IPOption, records: &Vec<Record>) -> (plan: Vec<RecordAction>)
    requires
        forall|i: int|
            0 <= i < records@.len() ==> records@[i].kind@ == "A"@ || records@[i].kind@ == "AAAA"@,
    ensures
        actions_view(plan@) == update_plan_view(records@, ip_v4(*ips), ip_v6(*ips)),
{
    let v4 = v4_of(ips);
    let v6 = v6_of(ips);
    let mut plan: Vec<RecordAction> = Vec::new();
    let mut i: usize = 0;
    proof {
        assert(records@.take(0) =~= Seq::<Record>::empty());
        assert(actions_view(plan@) =~= Seq::<ActionView>::empty());
    }
    while i < records.len()
        invariant
            i <= records@.len(),
            v4@ == ip_v4(*ips),
            v6 is Some <==> ip_v6(*ips) is Some,
            v6 is Some ==> v6->0@ == ip_v6(*ips)->0,
            actions_view(plan@) == update_plan_view(records@.take(i as int), v4@, ip_v6(*ips)),
        decreases records@.len() - i,
    {
        let r = &records[i];
        let ghost before = plan@;
        if r.kind == "AAAA".to_owned() {
            match &v6 {
                Option::None => {
                    plan.push(RecordAction::SkipNoIpv6 { record_id: r.record_id.clone() });
                },
                Option::Some(v6s) => {
                    if r.value == *v6s {
                        plan.push(RecordAction::SkipUnchanged { record_id: r.record_id.clone() });
                    } else {
                        plan.push(
                            RecordAction::Update {
                                record_id: r.record_id.clone(),
                                rr: r.rr.clone(),
                                domain_name: r.domain_name.clone(),
                                kind: r.kind.clone(),
                                value: v6s.clone(),
                            },
                        );
                        if r.status == "DISABLE".to_owned() {
                            plan.push(RecordAction::Enable { record_id: r.record_id.clone() });
                        }
                    }
                },
            }
        } else {
            if r.value == v4 {
                plan.push(RecordAction::SkipUnchanged { record_id: r.record_id.clone() });
            } else {
                plan.push(
                    RecordAction::Update {
                        record_id: r.record_id.clone(),
                        rr: r.rr.clone(),
                        domain_name: r.domain_name.clone(),
                        kind: r.kind.clone(),
                        value: v4.clone(),
                    },
                );
                if r.status == "DISABLE".to_owned() {
                    plan.push(RecordAction::Enable { record_id: r.record_id.clone() });
                }
            }
        }
        proof {
            assert(records@.take(i + 1).drop_last() =~= records@.take(i as int));
            assert(records@.take(i + 1).last() == records@[i as int]);
            assert(actions_view(plan@) =~= actions_view(before) + record_update_view(
                records@[i as int],
                v4@,
                ip_v6(*ips),
            ));
        }
        i = i + 1;
    }
    proof {
        assert(records@.take(records@.len() as int) =~= records@);
    }
    plan
}

/// What one missing label contributes to the create plan: one `A`
/// record when only IPv4 was discovered, an `AAAA` record first and an
/// `A` record second when both were.
pub open spec fn create_view_for(
    label: Seq<char>,
    zone: Seq<char>,
    v4: Seq<char>,
    v6: Option<Seq<char>>,
) -> Seq<ActionView> {
    match v6 {
        Option::None => seq![
            ActionView::Add { rr: label, domain_name: zone, kind: "A"@, value: v4 },
        ],
        Option::Some(v6v) => seq![
            ActionView::Add { rr: label, domain_name: zone, kind: "AAAA"@, value: v6v },
            ActionView::Add { rr: label, domain_name: zone, kind: "A"@, value: v4 },
        ],
    }
}

/// The whole create plan, in order of the missing labels.
pub open spec fn create_plan_view(
    pairs: Seq<(Seq<char>, Seq<char>)>,
    v4: Seq<char>,
    v6: Option<Seq<char>>,
) -> Seq<ActionView>
    decreases pairs.len(),
{
    if pairs.len() == 0 {
        Seq::empty()
    } else {
        create_plan_view(pairs.drop_last(), v4, v6) + create_view_for(
            pairs.last().0,
            pairs.last().1,
            v4,
            v6,
        )
    }
}

pub open spec fn pair_views(ps: Seq<(String, String)>) -> Seq<(Seq<char>, Seq<char>)> {
    ps.map(|i: int, p: (String, String)| (p.0@, p.1@))
}

/// Plan one create call per available address family for each missing
/// label.
pub fn create_records(ips: &IPOption, records: &Vec<(String, String)>) -> (plan: Vec<RecordAction>)
    ensures
        actions_view(plan@) == create_plan_view(pair_views(records@), ip_v4(*ips), ip_v6(*ips)),
{
    let v4 = v4_of(ips);
    let v6 = v6_of(ips);
    let mut plan: Vec<RecordAction> = Vec::new();
    let mut i: usize = 0;
    proof {
        assert(pair_views(records@).take(0) =~= Seq::<(Seq<char>, Seq<char>)>::empty());
        assert(actions_view(plan@) =~= Seq::<ActionView>::empty());
    }
    while i < records.len()
        invariant
            i <= records@.len(),
            v4@ == ip_v4(*ips),
            v6 is Some <==> ip_v6(*ips) is Some,
            v6 is Some ==> v6->0@ == ip_v6(*ips)->0,
            actions_view(plan@) == create_plan_view(
                pair_views(records@).take(i as int),
                v4@,
                ip_v6(*ips),
            ),
        decreases records@.len() - i,
    {
        let label = &records[i].0;
        let zone = &records[i].1;
        let ghost before = plan@;
        match &v6 {
            Option::None => {
                plan.push(
                    RecordAction::Add {
                        rr: label.clone(),
                        domain_name: zone.clone(),
                        kind: "A".to_owned(),
                        value: v4.clone(),
                    },
                );
            },
            Option::Some(v6s) => {
                plan.push(
                    RecordAction::Add {
                        rr: label.clone(),
                        domain_name: zone.clone(),
                        kind: "AAAA".to_owned(),
                        value: v6s.clone(),
                    },
                );
                plan.push(
                    RecordAction::Add {
                        rr: label.clone(),
                        domain_name: zone.clone(),
                        kind: "A".to_owned(),
                        value: v4.clone(),
                    },
                );
            },
        }
        proof {
            let pv = pair_views(records@);
            assert(pv.take(i + 1).drop_last() =~= pv.take(i as int));
            assert(pv.take(i + 1).last() == pv[i as int]);
            assert(actions_view(plan@) =~= actions_view(before) + create_view_for(
                pv[i as int].0,
                pv[i as int].1,
                v4@,
                ip_v6(*ips),
            ));
        }
        i = i + 1;
    }
    proof {
        assert(pair_views(records@).take(records@.len() as int) =~= pair_views(records@));
    }
    plan
}

/// What one label's existence query came to: the provider's records for
/// it, or a failure that drops the label from this cycle.
#[derive(Debug)]
pub enum LookupOutcome {
    Found(Vec<Record>),
    Failed,
}

/// One label's existence query, with its zone.
#[derive(Debug)]
pub struct LookupResult {
    pub record: String,
    pub domain: String,
    pub outcome: LookupOutcome,
}

/// The existing records to consider for updates: every record returned
/// for a label that matched at least one.
pub open spec fn update_set(ls: Seq<LookupResult>) -> Seq<Record>
    decreases ls.len(),
{
    if ls.len() == 0 {
        Seq::empty()
    } else {
        update_set(ls.drop_last()) + (match ls.last().outcome {
            LookupOutcome::Found(rs) => if rs@.len() > 0 {
                rs@
            } else {
                Seq::empty()
            },
            LookupOutcome::Failed => Seq::empty(),
        })
    }
}

/// The labels with no record at all, to be created.
pub open spec fn create_set(ls: Seq<LookupResult>) -> Seq<(Seq<char>, Seq<char>)>
    decreases ls.len(),
{
    if ls.len() == 0 {
        Seq::empty()
    } else {
        create_set(ls.drop_last()) + (match ls.last().outcome {
            LookupOutcome::Found(rs) => if rs@.len() == 0 {
                seq![(ls.last().record@, ls.last().domain@)]
            } else {
                Seq::empty()
            },
            LookupOutcome::Failed => Seq::empty(),
        })
    }
}

/// The labels whose query failed: dropped from both sets this cycle.
pub open spec fn skipped_set(ls: Seq<LookupResult>) -> Seq<Seq<char>>
    decreases ls.len(),
{
    if ls.len() == 0 {
        Seq::empty()
    } else {
        skipped_set(ls.drop_last()) + (match ls.last().outcome {
            LookupOutcome::Found(rs) => Seq::empty(),
            LookupOutcome::Failed => seq![ls.last().record@],
        })
    }
}

/// Sort each label's query outcome into the records to update, the
/// labels to create, and the labels dropped for this cycle.
pub fn classify_lookups(lookups: Vec<LookupResult>) -> (r: (
    Vec<Record>,
    Vec<(String, String)>,
    Vec<String>,
))
    ensures
        r.0@ == update_set(lookups@),
        pair_views(r.1@) == create_set(lookups@),
        r.2@.map(|i: int, s: String| s@) == skipped_set(lookups@),
{
    let ghost orig = lookups@;
    let mut rest = lookups;
    let mut update_rs: Vec<Record> = Vec::new();
    let mut create_rs: Vec<(String, String)> = Vec::new();
    let mut skipped: Vec<String> = Vec::new();
    proof {
        assert(orig.take(0) =~= Seq::<LookupResult>::empty());
        assert(rest@ =~= orig.skip(0));
        assert(pair_views(create_rs@) =~= Seq::<(Seq<char>, Seq<char>)>::empty());
        assert(skipped@.map(|i: int, s: String| s@) =~= Seq::<Seq<char>>::empty());
    }
    while rest.len() > 0
        invariant
            rest@.len() <= orig.len(),
            rest@ == orig.skip(orig.len() - rest@.len()),
            update_rs@ == update_set(orig.take(orig.len() - rest@.len())),
            pair_views(create_rs@) == create_set(orig.take(orig.len() - rest@.len())),
            skipped@.map(|i: int, s: String| s@) == skipped_set(
                orig.take(orig.len() - rest@.len()),
            ),
        decreases rest@.len(),
    {
        let ghost k = orig.len() - rest@.len();
        let ghost u_before = update_rs@;
        let ghost c_before = create_rs@;
        let ghost s_before = skipped@;
        let item = rest.remove(0);
        proof {
            assert(item == orig[k]);
            assert(rest@ =~= orig.skip(k + 1));
            assert(orig.take(k + 1).drop_last() =~= orig.take(k));
            assert(orig.take(k + 1).last() == orig[k]);
        }
        match item {
            LookupResult { record, domain, outcome } => {
                match outcome {
                    LookupOutcome::Found(found) => {
                        if found.len() > 0 {
                            let ghost fv = found@;
                            let mut moved = found;
                            update_rs.append(&mut moved);
                            proof {
                                assert(update_rs@ =~= u_before + fv);
                            }
                        } else {
                            create_rs.push((record, domain));
                            proof {
                                assert(pair_views(create_rs@) =~= pair_views(c_before) + seq![
                                    (orig[k].record@, orig[k].domain@),
                                ]);
                            }
                        }
                    },
                    LookupOutcome::Failed => {
                        skipped.push(record);
                        proof {
                            assert(skipped@.map(|i: int, s: String| s@) =~= s_before.map(
                                |i: int, s: String| s@,
                            ) + seq![orig[k].record@]);
                        }
                    },
                }
            },
        }
    }
    proof {
        assert(orig.take(orig.len() as int) =~= orig);
    }
    (update_rs, create_rs, skipped)
}

/// One reconciliation decision for a whole cycle: updates first, then
/// creates, with the labels dropped by failed queries reported aside.
pub fn reconcile(lookups: Vec<LookupResult>, ips: &IPOption) -> (r: (
    Vec<RecordAction>,
    Vec<String>,
))
    requires
        forall|i: int|
            0 <= i < update_set(lookups@).len() ==> update_set(lookups@)[i].kind@ == "A"@
                || update_set(lookups@)[i].kind@ == "AAAA"@,
    ensures
        actions_view(r.0@) == update_plan_view(update_set(lookups@), ip_v4(*ips), ip_v6(*ips))
            + create_plan_view(create_set(lookups@), ip_v4(*ips), ip_v6(*ips)),
        r.1@.map(|i: int, s: String| s@) == skipped_set(lookups@),
{
    let ghost ls = lookups@;
    let (update_rs, create_rs, skipped) = classify_lookups(lookups);
    let mut plan = update_records(ips, &update_rs);
    let ghost up_view = actions_view(plan@);
    let mut creates = create_records(ips, &create_rs);
    let ghost cr_view = actions_view(creates@);
    plan.append(&mut creates);
    proof {
        assert(actions_view(plan@) =~= up_view + cr_view);
    }
    (plan, skipped)
}

/// The exact parameters of a record existence query: exact-match search
/// for one label in one zone.
pub fn describe_records_params(record: &String, domain: &String) -> (r: Vec<(String, String)>)
    ensures
        r@.len() == 5,
        r@[0].0@ == "Action"@ && r@[0].1@ == "DescribeDomainRecords"@,
        r@[1].0@ == "DomainName"@ && r@[1].1@ == domain@,
        r@[2].0@ == "KeyWord"@ && r@[2].1@ == record@,
        r@[3].0@ == "SearchMode"@ && r@[3].1@ == "EXACT"@,
        r@[4].0@ == "PageSize"@ && r@[4].1@ == "100"@,
{
    let mut r: Vec<(String, String)> = Vec::new();
    r.push(("Action".to_owned(), "DescribeDomainRecords".to_owned()));
    r.push(("DomainName".to_owned(), domain.clone()));
    r.push(("KeyWord".to_owned(), record.clone()));
    r.push(("SearchMode".to_owned(), "EXACT".to_owned()));
    r.push(("PageSize".to_owned(), "100".to_owned()));
    r
}

/// The exact parameters of an update call.
pub fn update_record_params(
    record: &String,
    domain: &String,
    record_id: &String,
    value: &String,
    kind: &String,
) -> (r: Vec<(String, String)>)
    ensures
        r@.len() == 6,
        r@[0].0@ == "Action"@ && r@[0].1@ == "UpdateDomainRecord"@,
        r@[1].0@ == "DomainName"@ && r@[1].1@ == domain@,
        r@[2].0@ == "RR"@ && r@[2].1@ == record@,
        r@[3].0@ == "RecordId"@ && r@[3].1@ == record_id@,
        r@[4].0@ == "Value"@ && r@[4].1@ == value@,
        r@[5].0@ == "Type"@ && r@[5].1@ == kind@,
{
    let mut r: Vec<(String, String)> = Vec::new();
    r.push(("Action".to_owned(), "UpdateDomainRecord".to_owned()));
    r.push(("DomainName".to_owned(), domain.clone()));
    r.push(("RR".to_owned(), record.clone()));
    r.push(("RecordId".to_owned(), record_id.clone()));
    r.push(("Value".to_owned(), value.clone()));
    r.push(("Type".to_owned(), kind.clone()));
    r
}

/// The exact parameters of a re-enable call.
pub fn enable_record_params(record_id: &String) -> (r: Vec<(String, String)>)
    ensures
        r@.len() == 3,
        r@[0].0@ == "Action"@ && r@[0].1@ == "SetDomainRecordStatus"@,
        r@[1].0@ == "Status"@ && r@[1].1@ == "Enable"@,
        r@[2].0@ == "RecordId"@ && r@[2].1@ == record_id@,
{
    let mut r: Vec<(String, String)> = Vec::new();
    r.push(("Action".to_owned(), "SetDomainRecordStatus".to_owned()));
    r.push(("Status".to_owned(), "Enable".to_owned()));
    r.push(("RecordId".to_owned(), record_id.clone()));
    r
}

/// The exact parameters of a create call for one address family.
pub fn create_record_params(record: &String, domain: &String, value: &String, kind: &String) -> (r:
    Vec<(String, String)>)
    ensures
        r@.len() == 5,
        r@[0].0@ == "Action"@ && r@[0].1@ == "AddDomainRecord"@,
        r@[1].0@ == "DomainName"@ && r@[1].1@ == domain@,
        r@[2].0@ == "RR"@ && r@[2].1@ == record@,
        r@[3].0@ == "Value"@ && r@[3].1@ == value@,
        r@[4].0@ == "Type"@ && r@[4].1@ == kind@,
{
    let mut r: Vec<(String, String)> = Vec::new();
    r.push(("Action".to_owned(), "AddDomainRecord".to_owned()));
    r.push(("DomainName".to_owned(), domain.clone()));
    r.push(("RR".to_owned(), record.clone()));
    r.push(("Value".to_owned(), value.clone()));
    r.push(("Type".to_owned(), kind.clone()));
    r
}

/// Every record a lookup returned carries the label it was queried
/// for — the exact-match search promises no less.
pub open spec fn outcome_matches_label(l: LookupResult) -> bool {
    match l.outcome {
        LookupOutcome::Found(rs) => forall|k: int|
            0 <= k < rs@.len() ==> (#[trigger] rs@[k]).rr@ == l.record@,
        LookupOutcome::Failed => true,
    }
}

/// One query per label, and each answer about the label it asked for.
pub open spec fn lookups_well_formed(ls: Seq<LookupResult>) -> bool {
    &&& (forall|i: int, j: int| 0 <= i < j < ls.len() ==> ls[i].record@ != ls[j].record@)
    &&& (forall|m: int| 0 <= m < ls.len() ==> outcome_matches_label(#[trigger] ls[m]))
}

pub open spec fn found_empty(l: LookupResult) -> bool {
    match l.outcome {
        LookupOutcome::Found(rs) => rs@.len() == 0,
        LookupOutcome::Failed => false,
    }
}

pub open spec fn found_nonempty(l: LookupResult) -> bool {
    match l.outcome {
        LookupOutcome::Found(rs) => rs@.len() > 0,
        LookupOutcome::Failed => false,
    }
}

/// Every label in the create set came from a lookup that found nothing.
proof fn lemma_create_label_source(ls: Seq<LookupResult>, j: int)
    requires
        0 <= j < create_set(ls).len(),
    ensures
        exists|m: int|
            0 <= m < ls.len() && found_empty(#[trigger] ls[m]) && ls[m].record@ == create_set(
                ls,
            )[j].0,
    decreases ls.len(),
{
    let prefix = create_set(ls.drop_last());
    if j < prefix.len() {
        lemma_create_label_source(ls.drop_last(), j);
        let m = choose|m: int|
            0 <= m < ls.drop_last().len() && found_empty(#[trigger] ls.drop_last()[m])
                && ls.drop_last()[m].record@ == prefix[j].0;
        assert(ls.drop_last()[m] == ls[m]);
        assert(create_set(ls)[j] == prefix[j]);
        assert(0 <= m < ls.len() && found_empty(ls[m]) && ls[m].record@ == create_set(ls)[j].0);
    } else {
        let m = ls.len() - 1;
        assert(found_empty(ls[m]));
        assert(create_set(ls)[j] == (ls.last().record@, ls.last().domain@));
        assert(0 <= m < ls.len() && found_empty(ls[m]) && ls[m].record@ == create_set(ls)[j].0);
    }
}

/// No record in the update set carries a label whose every lookup found
/// nothing.
proof fn lemma_update_rr_avoids(ls: Seq<LookupResult>, lb: Seq<char>)
    requires
        forall|m: int| 0 <= m < ls.len() ==> outcome_matches_label(#[trigger] ls[m]),
        forall|m: int|
            0 <= m < ls.len() && (#[trigger] ls[m]).record@ == lb ==> !found_nonempty(ls[m]),
    ensures
        forall|i: int| 0 <= i < update_set(ls).len() ==> (#[trigger] update_set(ls)[i]).rr@ != lb,
    decreases ls.len(),
{
    if ls.len() > 0 {
        assert(forall|m: int| 0 <= m < ls.drop_last().len() ==> ls.drop_last()[m] == ls[m]);
        lemma_update_rr_avoids(ls.drop_last(), lb);
        let head = update_set(ls.drop_last());
        let last = ls.last();
        assert(outcome_matches_label(last));
        assert forall|i: int| 0 <= i < update_set(ls).len() implies (#[trigger] update_set(
            ls,
        )[i]).rr@ != lb by {
            if i >= head.len() {
                assert(found_nonempty(last));
                assert(last.record@ != lb);
                match last.outcome {
                    LookupOutcome::Found(rs) => {
                        assert(update_set(ls)[i] == rs@[i - head.len()]);
                        assert(rs@[i - head.len()].rr@ == last.record@);
                    },
                    LookupOutcome::Failed => {
                        assert(false);
                    },
                }
            }
        }
    }
}

/// A label appears in at most one of the two sets a cycle computes:
/// under well-formed lookups, no record to update shares its label with
/// a label to create.
pub proof fn lemma_update_create_disjoint(ls: Seq<LookupResult>)
    requires
        lookups_well_formed(ls),
    ensures
        forall|i: int, j: int|
            0 <= i < update_set(ls).len() && 0 <= j < create_set(ls).len() ==> (
            #[trigger] update_set(ls)[i]).rr@ != (#[trigger] create_set(ls)[j]).0,
{
    assert forall|i: int, j: int|
        0 <= i < update_set(ls).len() && 0 <= j < create_set(ls).len() implies (
    #[trigger] update_set(ls)[i]).rr@ != (#[trigger] create_set(ls)[j]).0 by {
        let lb = create_set(ls)[j].0;
        lemma_create_label_source(ls, j);
        let m = choose|m: int|
            0 <= m < ls.len() && found_empty(#[trigger] ls[m]) && ls[m].record@ == lb;
        assert forall|m2: int|
            0 <= m2 < ls.len() && (#[trigger] ls[m2]).record@ == lb implies !found_nonempty(
            ls[m2],
        ) by {
            if m2 != m {
                assert(ls[m].record@ == ls[m2].record@);
                assert(false);
            }
        }
        lemma_update_rr_avoids(ls, lb);
    }
}

/// A record whose stored value already equals the discovered address of
/// its type contributes no network call to the plan: reconciliation is
/// idempotent per record.
pub proof fn lemma_update_idempotent(r: Record, v4: Seq<char>, v6: Option<Seq<char>>)
    requires
        r.kind@ == "A"@ || r.kind@ == "AAAA"@,
        r.kind@ == "A"@ ==> r.value@ == v4,
        r.kind@ == "AAAA"@ ==> v6 == Option::Some(r.value@),
    ensures
        record_update_view(r, v4, v6) == seq![ActionView::SkipUnchanged { record_id: r.record_id@ }],
{
    reveal_strlit("A");
    reveal_strlit("AAAA");
}

/// When no IPv6 address was discovered, an existing `AAAA` record is
/// skipped with a warning rather than updated with an absent value.
pub proof fn lemma_aaaa_skipped_without_ipv6(r: Record, v4: Seq<char>)
    requires
        r.kind@ == "AAAA"@,
    ensures
        record_update_view(r, v4, Option::None) == seq![
            ActionView::SkipNoIpv6 { record_id: r.record_id@ },
        ],
{
}

/// An action an IPv4-only update plan may hold: an update writes the
/// IPv4 address into an `A` record, and nothing is ever created here.
pub open spec fn ipv4_only_update_action(a: ActionView, v4: Seq<char>) -> bool {
    match a {
        ActionView::Update { kind, value, .. } => kind == "A"@ && value == v4,
        ActionView::Add { .. } => false,
        _ => true,
    }
}

/// An action an IPv4-only create plan may hold: only `A` records are
/// created, carrying the IPv4 address.
pub open spec fn ipv4_only_create_action(a: ActionView, v4: Seq<char>) -> bool {
    match a {
        ActionView::Add { kind, value, .. } => kind == "A"@ && value == v4,
        ActionView::Update { .. } => false,
        ActionView::Enable { .. } => false,
        _ => true,
    }
}

/// When no IPv6 address was discovered, every call the update plan
/// issues is an update of an `A` record, and every call the create plan
/// issues creates an `A` record: the cycle degrades to IPv4 only.
pub proof fn lemma_ipv4_only_plan(
    records: Seq<Record>,
    pairs: Seq<(Seq<char>, Seq<char>)>,
    v4: Seq<char>,
)
    requires
        forall|i: int| 0 <= i < records.len() ==> records[i].kind@ == "A"@ || records[i].kind@
            == "AAAA"@,
    ensures
        forall|j: int|
            0 <= j < update_plan_view(records, v4, Option::None).len() ==> ipv4_only_update_action(
                #[trigger] update_plan_view(records, v4, Option::None)[j],
                v4,
            ),
        forall|j: int|
            0 <= j < create_plan_view(pairs, v4, Option::None).len() ==> ipv4_only_create_action(
                #[trigger] create_plan_view(pairs, v4, Option::None)[j],
                v4,
            ),
    decreases records.len() + pairs.len(),
{
    reveal_strlit("A");
    reveal_strlit("AAAA");
    if records.len() > 0 {
        lemma_ipv4_only_plan(records.drop_last(), pairs, v4);
        let head = update_plan_view(records.drop_last(), v4, Option::None);
        let tail = record_update_view(records.last(), v4, Option::None);
        assert(records.last().kind@ == "A"@ || records.last().kind@ == "AAAA"@);
        assert(forall|j: int| 0 <= j < tail.len() ==> ipv4_only_update_action(#[trigger] tail[j], v4));
        assert(forall|j: int|
            0 <= j < update_plan_view(records, v4, Option::None).len() ==> #[trigger] update_plan_view(
                records,
                v4,
                Option::None,
            )[j] == if j < head.len() {
                head[j]
            } else {
                tail[j - head.len()]
            });
    } else if pairs.len() > 0 {
        lemma_ipv4_only_plan(records, pairs.drop_last(), v4);
        let head = create_plan_view(pairs.drop_last(), v4, Option::None);
        let tail = create_view_for(pairs.last().0, pairs.last().1, v4, Option::None);
        assert(forall|j: int| 0 <= j < tail.len() ==> ipv4_only_create_action(#[trigger] tail[j], v4));
        assert(forall|j: int|
            0 <= j < create_plan_view(pairs, v4, Option::None).len() ==> #[trigger] create_plan_view(
                pairs,
                v4,
                Option::None,
            )[j] == if j < head.len() {
                head[j]
            } else {
                tail[j - head.len()]
            });
    }
}

} // verus!
