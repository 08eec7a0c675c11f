//! Discovery of OSCQuery services and what a client asks of one.
use vstd::prelude::*;
use mdns_sd::ServiceInfo;
use crate::codec::{read_host, read_node};
use crate::json::JsonValue;
use crate::mdns::{
    addresses_of, clone_service_info, event_meaning, fullname_of, port_of, service_first_address,
    service_fullname, service_port, split_service_event, MdnsEvent, MdnsEventView,
};
use crate::node::{OSCHostInfo, OSCQueryNode};
use crate::sidecar::{fallback_ip, Discoveries, Event, EventView};
use crate::table::{keys_of, NameTable};
use crate::text::{contains_seq, decimal, decimal_string, starts_with, str_contains};

verus! {

/// Events emitted by the mDNS discovery watcher.
#[derive(Debug, Clone)]
pub enum DiscoveryEvent {
    ServiceFound { fullname: String, info: Box<ServiceInfo> },
    ServiceLost { fullname: String },
}

/// Whether `r` is what the watcher makes of a browse event with content `ev`:
/// a resolved record is found under its full name, a removed instance is lost
/// under its full name; other events give nothing.
pub open spec fn discovers(ev: MdnsEventView, r: Option<DiscoveryEvent>) -> bool {
    match ev {
        MdnsEventView::Resolved(i) => match r {
            Some(DiscoveryEvent::ServiceFound { fullname, info }) => fullname@ == fullname_of(i)
                && *info == i,
            _ => false,
        },
        MdnsEventView::Removed { service_type: _, fullname: n } => match r {
            Some(DiscoveryEvent::ServiceLost { fullname }) => fullname@ == n,
            _ => false,
        },
        MdnsEventView::Other => r is None,
    }
}

/// What a browse event means to the watcher (see `discovers`).
pub fn discovery_of(e: MdnsEvent) -> (r: Option<DiscoveryEvent>)
    ensures
        discovers(e@, r),
{
    match e {
        MdnsEvent::Resolved(info) => {
            let fullname = service_fullname(&info);
            Some(DiscoveryEvent::ServiceFound { fullname, info })
        },
        MdnsEvent::Removed { service_type: _, fullname } => Some(
            DiscoveryEvent::ServiceLost { fullname },
        ),
        MdnsEvent::Other => None,
    }
}

/// What an `mdns_sd` browse event means to the watcher (see `discovers`).
pub fn discovery_event(e: mdns_sd::ServiceEvent) -> (r: Option<DiscoveryEvent>)
    ensures
        discovers(event_meaning(e), r),
{
    discovery_of(split_service_event(e))
}

impl Discoveries {
    /// What the sidecar reports on a discovery event. A lost service is handled
    /// by `on_service_lost`; a found one, unless it is the sidecar's own, is
    /// remembered and reported under the record's full name, at the record's
    /// first address (or 127.0.0.1) and port, as `on_service_found` says.
    pub fn on_discovery_event(&mut self, own_name: &str, e: DiscoveryEvent) -> (r: Option<Event>)
        ensures
            match e {
                DiscoveryEvent::ServiceLost { fullname } => {
                    &&& final(self).known.map() == old(self).known.map().remove(fullname@)
                    &&& match r {
                        Some(ev) => old(self).known.map().contains_key(fullname@) && ev@
                            == EventView::ServiceLost {
                            name: old(self).known.map()[fullname@]@,
                        },
                        None => !old(self).known.map().contains_key(fullname@),
                    }
                },
                DiscoveryEvent::ServiceFound { fullname, info } => if starts_with(
                    fullname@,
                    own_name@,
                ) {
                    r is None && final(self).known.map() == old(self).known.map()
                } else {
                    &&& r matches Some(Event::ServiceDiscovered { name, osc_ip: _, osc_port: _ })
                        && final(self).known.map() == old(self).known.map().insert(fullname@, name)
                    &&& r matches Some(ev) && ev@ matches EventView::ServiceDiscovered {
                        name,
                        osc_ip,
                        osc_port,
                    } && name == fullname_of(*info) && osc_port == port_of(*info) && (
                    addresses_of(*info).contains(osc_ip) || (addresses_of(*info) == Set::<
                        Seq<char>,
                    >::empty() && osc_ip == fallback_ip()))
                },
            },
    {
        match e {
            DiscoveryEvent::ServiceLost { fullname } => self.on_service_lost(fullname.as_str()),
            DiscoveryEvent::ServiceFound { fullname, info } => {
                let name = service_fullname(&info);
                let address = service_first_address(&info);
                let port = service_port(&info);
                let r = self.on_service_found(own_name, fullname, name, address, port);
                r
            },
        }
    }
}

/// The services seen after a browse event with content `ev`, from `m`: a
/// resolved record is stored under its full name (replacing an earlier one),
/// a removed instance is dropped by its full name, other events change
/// nothing.
pub open spec fn registry_step(m: Map<Seq<char>, ServiceInfo>, ev: MdnsEventView) -> Map<
    Seq<char>,
    ServiceInfo,
> {
    match ev {
        MdnsEventView::Resolved(info) => m.insert(fullname_of(info), info),
        MdnsEventView::Removed { service_type: _, fullname } => m.remove(fullname),
        MdnsEventView::Other => m,
    }
}

/// Whether a browse event with content `ev` takes the services seen from `m`
/// to `m2` (see `registry_step`).
pub open spec fn registry_after(
    m: Map<Seq<char>, ServiceInfo>,
    ev: MdnsEventView,
    m2: Map<Seq<char>, ServiceInfo>,
) -> bool {
    m2 == registry_step(m, ev)
}

/// The services seen after browse events with contents `evs`, in order,
/// starting from none.
pub open spec fn registry_fold(evs: Seq<MdnsEventView>) -> Map<Seq<char>, ServiceInfo>
    decreases evs.len(),
{
    if evs.len() == 0 {
        Map::empty()
    } else {
        registry_step(registry_fold(evs.drop_last()), evs[evs.len() - 1])
    }
}

/// A registry made by `new` and then given browse events in order, each by
/// `apply` (or `apply_event`), holds the fold of the events: for each full
/// name, the record last resolved under it, unless it was removed since.
/// `maps[i]` is what it holds after the first `i` events.
pub proof fn law_registry_folds(evs: Seq<MdnsEventView>, maps: Seq<Map<Seq<char>, ServiceInfo>>)
    requires
        maps.len() == evs.len() + 1,
        maps[0] == Map::<Seq<char>, ServiceInfo>::empty(),
        forall|i: int| 0 <= i < evs.len() ==> registry_after(#[trigger] maps[i], evs[i], maps[i + 1]),
    ensures
        maps[evs.len() as int] == registry_fold(evs),
    decreases evs.len(),
{
    if evs.len() > 0 {
        let n = evs.len() - 1;
        let e2 = evs.drop_last();
        let m2 = maps.drop_last();
        assert forall|i: int| 0 <= i < e2.len() implies registry_after(#[trigger] m2[i], e2[i], m2[i + 1]) by {
            assert(registry_after(maps[i], evs[i], maps[i + 1]));
        }
        law_registry_folds(e2, m2);
        assert(registry_after(maps[n], evs[n], maps[n + 1]));
    }
}

/// The OSCQuery and OSC services seen by a browser, each by its full name.
pub struct ServiceRegistry {
    pub services: NameTable<ServiceInfo>,
}

impl ServiceRegistry {
    /// No service seen yet.
    pub fn new() -> (r: Self)
        ensures
            r.services.map() == Map::<Seq<char>, ServiceInfo>::empty(),
    {
        ServiceRegistry { services: NameTable::new() }
    }

    /// Applies a browse event: a resolved instance is stored under the full
    /// name of its record (replacing an earlier one), a removed one is dropped,
    /// other events change nothing.
    pub fn apply_event(&mut self, e: MdnsEvent)
        ensures
            registry_after(old(self).services.map(), e@, final(self).services.map()),
    {
        match e {
            MdnsEvent::Resolved(info) => {
                let fullname = service_fullname(&info);
                self.services.insert(fullname, *info);
            },
            MdnsEvent::Removed { service_type: _, fullname } => {
                self.services.remove(fullname.as_str());
            },
            MdnsEvent::Other => {},
        }
    }

    /// Applies an `mdns_sd` browse event (see `registry_after`).
    pub fn apply(&mut self, e: mdns_sd::ServiceEvent)
        ensures
            registry_after(old(self).services.map(), event_meaning(e), final(self).services.map()),
    {
        self.apply_event(split_service_event(e));
    }

    /// Copies of the services, in the order in which they were last stored.
    pub fn discovered(&self) -> (r: Vec<ServiceInfo>)
        ensures
            r@ == self.services.entries().map_values(|e: (String, ServiceInfo)| e.1),
            exists|ks: Seq<Seq<char>>|
                {
                    &&& ks.len() == r@.len()
                    &&& ks.no_duplicates()
                    &&& ks.to_set() == self.services.map().dom()
                    &&& forall|i: int| 0 <= i < ks.len() ==> self.services.map()[#[trigger] ks[i]] == r@[i]
                },
    {
        let mut out: Vec<ServiceInfo> = Vec::new();
        let n = self.services.len();
        let mut i: usize = 0;
        while i < n
            invariant
                i <= n,
                n == self.services.entries().len(),
                out@ == self.services.entries().take(i as int).map_values(
                    |e: (String, ServiceInfo)| e.1,
                ),
            decreases n - i,
        {
            let c = clone_service_info(self.services.value_at(i));
            out.push(c);
            i = i + 1;
            assert(out@ =~= self.services.entries().take(i as int).map_values(
                |e: (String, ServiceInfo)| e.1,
            ));
        }
        assert(self.services.entries().take(n as int) == self.services.entries());
        proof {
            let ks = keys_of(self.services.entries());
            assert forall|i: int| 0 <= i < ks.len() implies self.services.map()[#[trigger] ks[i]]
                == out@[i] by {
                assert(ks[i] == self.services.entries()[i].0@);
            }
        }
        out
    }
}

/// The base URL of a client for `ip` and `port`.
pub open spec fn base_url(ip: Seq<char>, port: u16) -> Seq<char> {
    "http://"@ + ip + ":"@ + decimal(port as nat)
}

/// An HTTP client for querying a specific OSCQuery service.
pub struct OSCQueryClient {
    pub base_url: String,
}

/// Whether an HTTP status is a success (2xx).
pub open spec fn is_success(status: u16) -> bool {
    200 <= status <= 299
}

impl OSCQueryClient {
    /// Create a client from an explicit address and port.
    pub fn from_addr(ip: &str, port: u16) -> (r: Self)
        ensures
            r.base_url@ == base_url(ip@, port),
    {
        let mut s = String::from_str("http://");
        s.append(ip);
        s.append(":");
        let d = decimal_string(port as u64);
        s.append(d.as_str());
        OSCQueryClient { base_url: s }
    }

    /// Create a client from a discovered service: at one of its addresses (the
    /// first that its address set yields) and its port. None when the service
    /// has no address.
    pub fn new(service_info: &ServiceInfo) -> (r: Option<Self>)
        ensures
            match r {
                Some(c) => exists|ip: Seq<char>|
                    addresses_of(*service_info).contains(ip) && c.base_url@ == base_url(
                        ip,
                        port_of(*service_info),
                    ),
                None => addresses_of(*service_info) == Set::<Seq<char>>::empty(),
            },
    {
        match service_first_address(service_info) {
            Some(ip) => {
                let port = service_port(service_info);
                Some(Self::from_addr(ip.as_str(), port))
            },
            None => None,
        }
    }

    /// The URL at which the node with path `path` is served.
    pub fn node_url(&self, path: &str) -> (r: String)
        ensures
            r@ == self.base_url@ + path@,
    {
        let mut s = self.base_url.clone();
        s.append(path);
        s
    }

    /// The URL at which the host information is served.
    pub fn host_info_url(&self) -> (r: String)
        ensures
            r@ == self.base_url@ + "/HOST_INFO"@,
    {
        let mut s = self.base_url.clone();
        s.append("/HOST_INFO");
        s
    }
}

/// The view of an optional node.
pub open spec fn opt_node_view(o: Option<OSCQueryNode>) -> Option<crate::node::NodeView> {
    match o {
        Some(n) => Some(n@),
        None => None,
    }
}

/// The node in a reply to a node query: none unless the status is a success
/// and the body is JSON that reads as a node.
pub fn node_from_reply(status: u16, body: Option<&JsonValue>) -> (r: Option<OSCQueryNode>)
    ensures
        opt_node_view(r) == (match body {
            Some(j) => if is_success(status) {
                read_node(j@)
            } else {
                None
            },
            None => None,
        }),
{
    if status < 200 || status > 299 {
        return None;
    }
    match body {
        Some(j) => OSCQueryNode::from_json(j),
        None => None,
    }
}

/// The host information in a reply: none unless the status is a success and
/// the body is JSON that reads as host information.
pub fn host_info_from_reply(status: u16, body: Option<&JsonValue>) -> (r: Option<OSCHostInfo>)
    ensures
        (match r {
            Some(h) => Some(h@),
            None => None,
        }) == (match body {
            Some(j) => if is_success(status) {
                read_host(j@)
            } else {
                None
            },
            None => None,
        }),
{
    if status < 200 || status > 299 {
        return None;
    }
    match body {
        Some(j) => OSCHostInfo::from_json(j),
        None => None,
    }
}

impl OSCHostInfo {
    /// Whether the host name contains `name` (how a service is found by name).
    pub fn name_contains(&self, name: &str) -> (r: bool)
        ensures
            r == contains_seq(self.name@, name@),
    {
        str_contains(self.name.as_str(), name)
    }
}

/// What a search for a service by name makes of one service's host
/// information reply: the search stops at this service when the reply came
/// and its name contains `name`; otherwise it goes on to the next service.
pub fn name_search_stops(reply: &Option<OSCHostInfo>, name: &str) -> (stop: bool)
    ensures
        stop == (match reply {
            Some(h) => contains_seq(h.name@, name@),
            None => false,
        }),
{
    match reply {
        Some(h) => h.name_contains(name),
        None => false,
    }
}

/// What a search for the nodes at an address keeps of one service: nothing
/// when its host information could not be had (its node is then not asked
/// for), else the service, its host information and its node there, when it
/// has one.
pub fn node_search_keeps(
    service: ServiceInfo,
    host: Option<OSCHostInfo>,
    node: Option<OSCQueryNode>,
) -> (r: Option<(ServiceInfo, OSCHostInfo, OSCQueryNode)>)
    ensures
        match (host, node) {
            (Some(h), Some(n)) => r matches Some((s2, h2, n2)) && s2 == service && h2@ == h@ && n2@ == n@,
            _ => r is None,
        },
{
    match (host, node) {
        (Some(h), Some(n)) => Some((service, h, n)),
        _ => None,
    }
}

} // verus!
