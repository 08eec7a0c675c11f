//! What the library uses of `mdns_sd`: service records and discovery events.
use vstd::prelude::*;
use mdns_sd::{ServiceEvent, ServiceInfo};
use crate::text::{contains_seq, ends_with};

verus! {

/// `mdns_sd::ServiceInfo`, a record of one DNS-SD service instance.
#[verifier::external_type_specification]
#[verifier::external_body]
pub struct ExServiceInfo(mdns_sd::ServiceInfo);

/// `mdns_sd::Error`, the error of `mdns_sd`.
#[verifier::external_type_specification]
#[verifier::external_body]
pub struct ExMdnsError(mdns_sd::Error);

/// `mdns_sd::ServiceEvent`, an event of a service browse.
#[verifier::external_type_specification]
#[verifier::external_body]
pub struct ExServiceEvent(mdns_sd::ServiceEvent);

/// Whether TXT property keys are accepted by `ServiceInfo::new`: ASCII
/// without `=`.
pub open spec fn txt_keys_ok(props: Seq<(String, String)>) -> bool {
    forall|i: int|
        0 <= i < props.len() ==> vstd::utf8::is_ascii_chars(#[trigger] props[i].0@)
            && !props[i].0@.contains('=')
}

/// The host name of a service record: `get_hostname`.
pub uninterp spec fn hostname_of(info: ServiceInfo) -> Seq<char>;

/// The TXT properties of a service record (`get_properties`), each key to the
/// value of its last property with that key: its bytes, or none for a key
/// without a value.
pub uninterp spec fn txt_of(info: ServiceInfo) -> Map<Seq<char>, Option<Seq<u8>>>;

/// The host name that `ServiceInfo::new` keeps: a name that ends in
/// `.local.local.` loses its last `local.`.
pub open spec fn normalized_host(h: Seq<char>) -> Seq<char> {
    if ends_with(h, ".local.local."@) {
        h.take(h.len() - 6)
    } else {
        h
    }
}

/// The TXT properties made from key and value pairs collected into a map:
/// a later pair for a key replaces an earlier one, and each value is kept as
/// its UTF-8 bytes.
pub open spec fn txt_map(props: Seq<(String, String)>) -> Map<Seq<char>, Option<Seq<u8>>>
    decreases props.len(),
{
    if props.len() == 0 {
        Map::empty()
    } else {
        let (k, v) = props[props.len() - 1];
        txt_map(props.drop_last()).insert(k@, Some(vstd::utf8::encode_utf8(v@)))
    }
}

/// Calls `mdns_sd::ServiceInfo::new(ty_domain, my_name, host_name, ip, port,
/// Some(properties))`, the properties collected into a `HashMap`. Its source
/// fails only when an address does not parse or a TXT key is not ASCII or
/// holds `=`; the contract states that the single address `127.0.0.1` with
/// accepted keys gives a record. Of the record, its source shows that the port
/// is `port`; that the full name is `my_name`, a dot and `ty_domain` when the
/// type names no subtype (`._sub.`); and that the address `127.0.0.1` gives
/// that single address; the host name is `host_name`, less a doubled
/// `.local.` at its end; the TXT properties are those of `properties`, the
/// last pair for a key winning as it does in the `HashMap`.
#[verifier::external_body]
pub(crate) fn new_service_info(
    ty_domain: &str,
    my_name: &str,
    host_name: &str,
    ip: &str,
    port: u16,
    properties: &[(String, String)],
) -> (r: Result<ServiceInfo, mdns_sd::Error>)
    ensures
        ip@ == "127.0.0.1"@ && txt_keys_ok(properties@) ==> r is Ok,
        r matches Ok(i) ==> port_of(i) == port,
        r matches Ok(i) ==> (!contains_seq(ty_domain@, "._sub."@) ==> fullname_of(i) == my_name@
            + "."@ + ty_domain@),
        r matches Ok(i) ==> (ip@ == "127.0.0.1"@ ==> addresses_of(i) == set!["127.0.0.1"@]),
        r matches Ok(i) ==> hostname_of(i) == normalized_host(host_name@),
        r matches Ok(i) ==> txt_of(i) == txt_map(properties@),
{
    let props: std::collections::HashMap<String, String> = properties.iter().cloned().collect();
    ServiceInfo::new(ty_domain, my_name, host_name, ip, port, Some(props))
}

/// Calls `Display` on an `mdns_sd::Error`: the error's message. Nothing is
/// stated of the text.
#[verifier::external_body]
pub(crate) fn mdns_error_text(e: &mdns_sd::Error) -> String {
    e.to_string()
}

/// The full name of a service record: `get_fullname`, the instance name, a
/// dot and the service type.
pub uninterp spec fn fullname_of(info: ServiceInfo) -> Seq<char>;

/// The port of a service record: `get_port`.
pub uninterp spec fn port_of(info: ServiceInfo) -> u16;

/// The addresses of a service record, each as `IpAddr` writes it:
/// `get_addresses`, a set.
pub uninterp spec fn addresses_of(info: ServiceInfo) -> Set<Seq<char>>;

/// Calls `ServiceInfo::get_fullname`, which returns the record's `fullname`
/// field: the record's full name.
#[verifier::external_body]
pub(crate) fn service_fullname(info: &ServiceInfo) -> (r: String)
    ensures
        r@ == fullname_of(*info),
{
    info.get_fullname().to_owned()
}

/// Calls `ServiceInfo::get_port`, which returns the record's `port` field.
#[verifier::external_body]
pub(crate) fn service_port(info: &ServiceInfo) -> (r: u16)
    ensures
        r == port_of(*info),
{
    info.get_port()
}

/// Calls `ServiceInfo::get_addresses` and gives the first address that the
/// set yields, as text, or none for an empty set. Which address comes first
/// depends on the set's hashing, so only that it is one of the record's
/// addresses is stated.
#[verifier::external_body]
pub(crate) fn service_first_address(info: &ServiceInfo) -> (r: Option<String>)
    ensures
        match r {
            Some(a) => addresses_of(*info).contains(a@),
            None => addresses_of(*info) == Set::<Seq<char>>::empty(),
        },
{
    info.get_addresses().iter().next().map(|a| a.to_string())
}

/// Calls `Clone::clone` on a `ServiceInfo`, which its source derives: a copy
/// equal to the value it was made from.
#[verifier::external_body]
pub(crate) fn clone_service_info(info: &ServiceInfo) -> (r: ServiceInfo)
    ensures
        r == *info,
{
    info.clone()
}

/// The kinds of browse events that the library acts on.
pub enum MdnsEvent {
    Resolved(Box<ServiceInfo>),
    Removed { service_type: String, fullname: String },
    Other,
}

/// The content of a browse event: a resolved record, a removed instance (by
/// service type and full name), or another event.
pub enum MdnsEventView {
    Resolved(ServiceInfo),
    Removed { service_type: Seq<char>, fullname: Seq<char> },
    Other,
}

impl View for MdnsEvent {
    type V = MdnsEventView;

    open spec fn view(&self) -> MdnsEventView {
        match self {
            MdnsEvent::Resolved(info) => MdnsEventView::Resolved(**info),
            MdnsEvent::Removed { service_type, fullname } => MdnsEventView::Removed {
                service_type: service_type@,
                fullname: fullname@,
            },
            MdnsEvent::Other => MdnsEventView::Other,
        }
    }
}

/// The content of an `mdns_sd::ServiceEvent`: `ServiceResolved(info)` is the
/// record `info`, `ServiceRemoved(ty, name)` the removal of `name` of type
/// `ty`, every other variant is another event.
pub uninterp spec fn event_meaning(e: ServiceEvent) -> MdnsEventView;

/// Tells the variants of an `mdns_sd::ServiceEvent` apart: a resolved
/// instance, a removed one (by type and full name), or another event.
#[verifier::external_body]
pub(crate) fn split_service_event(e: ServiceEvent) -> (r: MdnsEvent)
    ensures
        r@ == event_meaning(e),
{
    match e {
        ServiceEvent::ServiceResolved(info) => MdnsEvent::Resolved(Box::new(info)),
        ServiceEvent::ServiceRemoved(ty, name) => MdnsEvent::Removed { service_type: ty, fullname: name },
        _ => MdnsEvent::Other,
    }
}

} // verus!
