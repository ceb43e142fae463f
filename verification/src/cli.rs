//! The configuration surface: credentials, target names, update period
//! and TTL, and the mode they were sourced in.

use crate::error::DdnsError;
use crate::record::split_ch;
use crate::record::split_string;
use vstd::prelude::*;

verus! {

/// Where the configuration came from.
#[derive(Clone, Debug)]
pub enum Mode {
    Cli,
    Env,
}

/// The configuration consumed by every cycle.
#[derive(Clone, Debug)]
pub struct Options {
    pub access_key_id: Option<String>,
    pub access_key_secret: Option<String>,
    pub region_id: String,
    pub domains: Vec<String>,
    pub period: u32,
    pub ttl: u32,
    pub mode: Mode,
}

impl Options {
    /// The defaults before any argument or variable is read.
    pub fn new(mode: Mode) -> (r: Self)
        ensures
            r.access_key_id is None,
            r.access_key_secret is None,
            r.region_id@ == "cn-hangzhou"@,
            r.domains@.len() == 0,
            r.period == 600,
            r.ttl == 600,
            r.mode == mode,
    {
        Options {
            access_key_id: Option::None,
            access_key_secret: Option::None,
            region_id: "cn-hangzhou".to_owned(),
            domains: Vec::new(),
            period: 600,
            ttl: 600,
            mode,
        }
    }

    /// Check the required settings.
    pub fn verify(&self) -> (r: Result<(), DdnsError>)
        ensures
            r is Ok,
    {
        Result::Ok(())
    }

    /// The credential pair, whose absence is a fatal configuration
    /// error rather than a retryable one.
    pub fn credentials(&self) -> (r: Result<(String, String), DdnsError>)
        ensures
            r is Ok <==> self.access_key_id is Some && self.access_key_secret is Some,
            r is Ok ==> r->Ok_0.0 == self.access_key_id->0 && r->Ok_0.1
                == self.access_key_secret->0,
            self.access_key_id is None ==> r == Result::<(String, String), DdnsError>::Err(
                DdnsError::MissingAccessKeyId,
            ),
            self.access_key_id is Some && self.access_key_secret is None ==> r == Result::<
                (String, String),
                DdnsError,
            >::Err(DdnsError::MissingAccessKeySecret),
    {
        match &self.access_key_id {
            Option::None => Result::Err(DdnsError::MissingAccessKeyId),
            Option::Some(id) => match &self.access_key_secret {
                Option::None => Result::Err(DdnsError::MissingAccessKeySecret),
                Option::Some(secret) => Result::Ok((id.clone(), secret.clone())),
            },
        }
    }

    /// Split a comma-separated list of configured names.
    pub fn sqlit_domain(domains: &str) -> (r: Vec<String>)
        ensures
            r@.map(|i: int, d: String| d@) == split_ch(domains@, ','),
    {
        split_string(domains, ',')
    }
}

impl Mode {
    /// The mode named by a flag value: `cli` and `env`, nothing else.
    pub fn parse(s: &str) -> (r: Result<Mode, &'static str>)
        ensures
            s@ == "cli"@ ==> r is Ok && r->Ok_0 is Cli,
            s@ == "env"@ ==> r is Ok && r->Ok_0 is Env,
            r is Ok ==> s@ == "cli"@ || s@ == "env"@,
    {
        proof {
            reveal_strlit("cli");
            reveal_strlit("env");
            assert("cli"@[0] == 'c' && "env"@[0] == 'e');
            assert("cli"@ != "env"@);
        }
        if s.to_owned() == "cli".to_owned() {
            Result::Ok(Mode::Cli)
        } else if s.to_owned() == "env".to_owned() {
            Result::Ok(Mode::Env)
        } else {
            Result::Err("no match")
        }
    }
}

impl core::str::FromStr for Mode {
    type Err = &'static str;

    fn from_str(s: &str) -> Result<Self, Self::Err> {
        Mode::parse(s)
    }
}

} // verus!
