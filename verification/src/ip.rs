//! The discovered address set: at most one IPv4 address, always
//! required, and at most one IPv6 address, present only when the
//! dual-stack lookup succeeded.

use crate::error::DdnsError;
use crate::record::split_ch;
use crate::record::split_string;
use vstd::prelude::*;

verus! {

/// The addresses discovered in one cycle, as canonical literals.
#[derive(Debug, Clone, PartialEq, Eq)]
pub enum IPOption {
    IPV4(String),
    IPAll(String, String),
}

/// The discovered IPv4 literal.
pub open spec fn ip_v4(ips: IPOption) -> Seq<char> {
    match ips {
        IPOption::IPV4(v4) => v4@,
        IPOption::IPAll(v4, _) => v4@,
    }
}

/// The discovered IPv6 literal, if the dual-stack lookup succeeded.
pub open spec fn ip_v6(ips: IPOption) -> Option<Seq<char>> {
    match ips {
        IPOption::IPV4(_) => Option::None,
        IPOption::IPAll(_, v6) => Option::Some(v6@),
    }
}

pub open spec fn is_digit(c: char) -> bool {
    '0' <= c && c <= '9'
}

/// The value of a decimal digit string.
pub open spec fn dec_val(s: Seq<char>) -> int
    decreases s.len(),
{
    if s.len() == 0 {
        0
    } else {
        dec_val(s.drop_last()) * 10 + (s.last() as int - '0' as int)
    }
}

/// A strict dotted-quad octet: one to three digits, no leading zero,
/// value at most 255.
pub open spec fn valid_octet(s: Seq<char>) -> bool {
    &&& 1 <= s.len() <= 3
    &&& (forall|i: int| 0 <= i < s.len() ==> is_digit(s[i]))
    &&& (s.len() > 1 ==> s[0] != '0')
    &&& dec_val(s) <= 255
}

/// A strict IPv4 literal: four valid octets separated by dots. A
/// literal of this form is its own canonical text.
pub open spec fn valid_ipv4(s: Seq<char>) -> bool {
    let parts = split_ch(s, '.');
    parts.len() == 4 && (forall|i: int| 0 <= i < 4 ==> valid_octet(parts[i]))
}

/// Parse one decimal octet.
fn parse_octet(s: &String) -> (r: Option<u8>)
    ensures
        r is Some <==> valid_octet(s@),
        r is Some ==> r->0 as int == dec_val(s@),
{
    let st = s.as_str();
    let n = st.unicode_len();
    if n == 0 || n > 3 {
        return Option::None;
    }
    if n > 1 && st.get_char(0) == '0' {
        return Option::None;
    }
    let mut val: u32 = 0;
    let mut i: usize = 0;
    proof {
        assert(s@.take(0) =~= Seq::<char>::empty());
    }
    while i < n
        invariant
            i <= n <= 3,
            n == s@.len(),
            st@ == s@,
            val as int == dec_val(s@.take(i as int)),
            forall|j: int| 0 <= j < i ==> is_digit(s@[j]),
            i == 0 ==> val == 0,
            i == 1 ==> val <= 9,
            i == 2 ==> val <= 99,
            i == 3 ==> val <= 999,
        decreases n - i,
    {
        let c = st.get_char(i);
        if c < '0' || c > '9' {
            return Option::None;
        }
        proof {
            assert(s@.take(i + 1).drop_last() =~= s@.take(i as int));
            assert(s@.take(i + 1).last() == s@[i as int]);
        }
        val = val * 10 + (c as u32 - 48);
        i = i + 1;
    }
    proof {
        assert(s@.take(n as int) =~= s@);
    }
    if val > 255 {
        return Option::None;
    }
    Option::Some(val as u8)
}

/// Parse a strict IPv4 literal; the accepted text is already canonical,
/// so it is returned as is.
pub fn parse_ipv4(s: &str) -> (r: Option<String>)
    ensures
        r is Some <==> valid_ipv4(s@),
        r is Some ==> r->0@ == s@,
{
    let parts = split_string(s, '.');
    if parts.len() != 4 {
        return Option::None;
    }
    let ghost pv = parts@.map(|i: int, p: String| p@);
    let mut i: usize = 0;
    while i < 4
        invariant
            i <= 4,
            parts@.len() == 4,
            pv == parts@.map(|x: int, p: String| p@),
            pv == split_ch(s@, '.'),
            forall|j: int| 0 <= j < i ==> valid_octet(pv[j]),
        decreases 4 - i,
    {
        proof {
            assert(pv[i as int] == parts@[i as int]@);
        }
        if parse_octet(&parts[i]).is_none() {
            proof {
                assert(!valid_octet(split_ch(s@, '.')[i as int]));
            }
            return Option::None;
        }
        i = i + 1;
    }
    Option::Some(s.to_owned())
}

/// What the dual-stack IPv6 lookup came to by the time the addresses
/// are combined: the lookup failed, or its response held a literal that
/// parsed, or one that did not. Which of the last two holds is decided
/// where an IPv6 parser is available.
#[derive(Debug, Clone, PartialEq, Eq)]
pub enum Ipv6Outcome {
    LookupFailed,
    Literal(String),
    Invalid(String),
}

impl IPOption {
    /// The discovery response's address field must be a valid IPv4
    /// literal, or the cycle fails.
    pub fn combine_ipv4(ipv4_str: String) -> (r: Result<IPOption, DdnsError>)
        ensures
            r is Ok <==> valid_ipv4(ipv4_str@),
            r is Ok ==> r->Ok_0 == IPOption::IPV4(ipv4_str),
            r is Err ==> r->Err_0 == DdnsError::AddressParse(ipv4_str),
    {
        match parse_ipv4(ipv4_str.as_str()) {
            Option::Some(_) => Result::Ok(IPOption::IPV4(ipv4_str)),
            Option::None => Result::Err(DdnsError::AddressParse(ipv4_str)),
        }
    }

    /// Fold the IPv6 lookup in: a failed lookup degrades to IPv4 only,
    /// a parsed literal upgrades to dual stack, an unparsable literal
    /// from a successful lookup fails the cycle.
    pub fn combine_ipv6(self, res: Ipv6Outcome) -> (r: Result<IPOption, DdnsError>)
        ensures
            self is IPAll ==> r == Result::<IPOption, DdnsError>::Ok(self),
            self is IPV4 && res is LookupFailed ==> r == Result::<IPOption, DdnsError>::Ok(self),
            self is IPV4 && res is Literal ==> {
                &&& r is Ok
                &&& ip_v4(r->Ok_0) == ip_v4(self)
                &&& ip_v6(r->Ok_0) == Option::Some(res->Literal_0@)
            },
            self is IPV4 && res is Invalid ==> r == Result::<IPOption, DdnsError>::Err(
                DdnsError::AddressParse(res->Invalid_0),
            ),
    {
        match self {
            IPOption::IPV4(v4) => match res {
                Ipv6Outcome::LookupFailed => Result::Ok(IPOption::IPV4(v4)),
                Ipv6Outcome::Literal(v6) => Result::Ok(IPOption::IPAll(v4, v6)),
                Ipv6Outcome::Invalid(text) => Result::Err(DdnsError::AddressParse(text)),
            },
            IPOption::IPAll(v4, v6) => Result::Ok(IPOption::IPAll(v4, v6)),
        }
    }
}

impl IPOption {
    /// One cycle's whole discovery decision, from the raw lookup
    /// outcomes: a missing IPv4 lookup or an unparsable IPv4 response
    /// fails the cycle; the IPv6 side degrades or fails as
    /// `combine_ipv6` says.
    pub fn combine(v4_body: Option<String>, v6: Ipv6Outcome) -> (r: Result<IPOption, DdnsError>)
        ensures
            v4_body is None ==> r == Result::<IPOption, DdnsError>::Err(
                DdnsError::Ipv4LookupFailed,
            ),
            v4_body is Some && second_field_of(v4_body->0@) is None ==> r == Result::<
                IPOption,
                DdnsError,
            >::Err(DdnsError::AddressParse(v4_body->0)),
            v4_body is Some && second_field_of(v4_body->0@) is Some && !valid_ipv4(
                second_field_of(v4_body->0@)->0,
            ) ==> r is Err && (match r->Err_0 {
                DdnsError::AddressParse(t) => t@ == second_field_of(v4_body->0@)->0,
                _ => false,
            }),
            v4_body is Some && second_field_of(v4_body->0@) is Some && valid_ipv4(
                second_field_of(v4_body->0@)->0,
            ) ==> {
                &&& (v6 is LookupFailed ==> r is Ok && ip_v4(r->Ok_0) == second_field_of(
                    v4_body->0@,
                )->0 && ip_v6(r->Ok_0) is None)
                &&& (v6 is Literal ==> r is Ok && ip_v4(r->Ok_0) == second_field_of(v4_body->0@)->0
                    && ip_v6(r->Ok_0) == Option::Some(v6->Literal_0@))
                &&& (v6 is Invalid ==> r == Result::<IPOption, DdnsError>::Err(
                    DdnsError::AddressParse(v6->Invalid_0),
                ))
            },
    {
        let body = match v4_body {
            Option::None => {
                return Result::Err(DdnsError::Ipv4LookupFailed);
            },
            Option::Some(body) => body,
        };
        let field = match second_field(body.as_str()) {
            Option::None => {
                return Result::Err(DdnsError::AddressParse(body));
            },
            Option::Some(field) => field,
        };
        let ips = match IPOption::combine_ipv4(field) {
            Result::Err(e) => {
                return Result::Err(e);
            },
            Result::Ok(ips) => ips,
        };
        ips.combine_ipv6(v6)
    }
}

/// The address field of a discovery response body: the second entry of
/// its comma-separated list.
pub open spec fn second_field_of(body: Seq<char>) -> Option<Seq<char>> {
    let parts = split_ch(body, ',');
    if parts.len() >= 2 {
        Option::Some(parts[1])
    } else {
        Option::None
    }
}

/// Extract the address field of a discovery response body.
pub fn second_field(body: &str) -> (r: Option<String>)
    ensures
        r is Some <==> second_field_of(body@) is Some,
        r is Some ==> r->0@ == second_field_of(body@)->0,
{
    let parts = split_string(body, ',');
    if parts.len() >= 2 {
        let ghost pv = parts@.map(|i: int, p: String| p@);
        proof {
            assert(pv[1] == parts@[1]@);
        }
        Option::Some(parts[1].clone())
    } else {
        Option::None
    }
}

} // verus!
