//! The shapes of the provider's domain-listing endpoint. Listing is not
//! part of the update path; only the data model lives here.

use vstd::prelude::*;

verus! {

#[derive(Debug)]
pub struct DomainListResponse {
    pub request_id: String,
    pub page_number: i32,
    pub total_count: i32,
    pub page_size: i32,
    pub domains: DomainList,
}

#[derive(Debug)]
pub struct DomainList {
    pub domain: Vec<Domain>,
}

#[derive(Debug)]
pub struct Domain {
    pub ali_domain: bool,
    pub resource_group_id: String,
    pub domain_name: String,
    pub create_time: String,
    pub puny_code: String,
    pub dns_servers: DnsServer,
    pub star_mark: bool,
    pub version_code: String,
    pub domain_id: String,
    pub version_name: String,
    pub record_count: i32,
    pub create_timestamp: i64,
    pub tags: Tags,
}

#[derive(Debug)]
pub struct Tags {
    pub tag: Vec<String>,
}

#[derive(Debug)]
pub struct DnsServer {
    pub dns_server: Vec<String>,
}

} // verus!
