//! The catalogue of everything worth collecting, in one table.
//!
//! A resource is a name, a surface and a path. `{site}` in a path is the
//! documented UUID, `{legacy}` the short name the internal surfaces use.

use vstd::prelude::*;
use crate::text::{replace, replace_str};

verus! {

/// Which API surface of a console a request goes to.
///
/// Only `Integration` is documented by the vendor. The other two are what the
/// web app calls for itself: far richer, and free to disappear on any firmware
/// update, so anything built on them degrades rather than fails.
#[derive(Clone, Copy, Debug, PartialEq, Eq, Structural)]
pub enum Surface {
    /// `/proxy/network/integration/v1`: documented, offset paging, site UUID.
    Integration,
    /// `/proxy/network/api`: `{meta,data}` envelope, no paging, short site name.
    Legacy,
    /// `/proxy/network/v2/api`: plain JSON, no envelope, no paging.
    V2,
}

/// One collected resource.
#[derive(Debug)]
pub struct Resource {
    /// How a snapshot and a comparison refer to it.
    pub name: &'static str,
    pub surface: Surface,
    pub path: &'static str,
    /// One line on what it is for.
    pub about: &'static str,
}

/// The catalogue, as (name, surface, path) in order.
pub open spec fn catalogue() -> Seq<(Seq<char>, Surface, Seq<char>)> {
    seq![
        ("sites"@, Surface::Integration, "/sites"@),
        ("devices"@, Surface::Integration, "/sites/{site}/devices"@),
        ("clients"@, Surface::Integration, "/sites/{site}/clients"@),
        ("networks"@, Surface::Integration, "/sites/{site}/networks"@),
        ("firewall-policies"@, Surface::Integration, "/sites/{site}/firewall/policies"@),
        ("firewall-zones"@, Surface::Integration, "/sites/{site}/firewall/zones"@),
        ("traffic-matching-lists"@, Surface::Integration, "/sites/{site}/traffic-matching-lists"@),
        ("device-detail"@, Surface::Legacy, "/s/{legacy}/stat/device"@),
        ("clients-known"@, Surface::Legacy, "/s/{legacy}/rest/user"@),
        ("settings"@, Surface::Legacy, "/s/{legacy}/rest/setting"@),
        ("wlans"@, Surface::Legacy, "/s/{legacy}/rest/wlanconf"@),
        ("network-detail"@, Surface::Legacy, "/s/{legacy}/rest/networkconf"@),
        ("port-forwards"@, Surface::Legacy, "/s/{legacy}/rest/portforward"@),
        ("health"@, Surface::Legacy, "/s/{legacy}/stat/health"@),
        ("sysinfo"@, Surface::Legacy, "/s/{legacy}/stat/sysinfo"@),
        ("neighbours"@, Surface::Legacy, "/s/{legacy}/stat/rogueap"@),
        ("firewall-policies-v2"@, Surface::V2, "/site/{legacy}/firewall-policies"@),
        ("topology"@, Surface::V2, "/site/{legacy}/topology"@),
    ]
}

fn entry(name: &'static str, surface: Surface, path: &'static str, about: &'static str) -> (r:
    Resource)
    ensures
        r.name@ == name@,
        r.surface == surface,
        r.path@ == path@,
        r.about@ == about@,
{
    Resource { name, surface, path, about }
}

/// Everything the commands read, and therefore everything a snapshot holds.
pub fn resources() -> (r: Vec<Resource>)
    ensures
        r@.len() == catalogue().len(),
        forall|i: int|
            0 <= i < r@.len() ==> (#[trigger] r@[i].name@, r@[i].surface, r@[i].path@)
                == catalogue()[i],
{
    let mut v: Vec<Resource> = Vec::new();
    v.push(entry("sites", Surface::Integration, "/sites", "the sites on this console"));
    v.push(
        entry(
            "devices",
            Surface::Integration,
            "/sites/{site}/devices",
            "managed hardware, as the documented API sees it",
        ),
    );
    v.push(
        entry(
            "clients",
            Surface::Integration,
            "/sites/{site}/clients",
            "clients connected at the moment of the snapshot",
        ),
    );
    v.push(
        entry(
            "networks",
            Surface::Integration,
            "/sites/{site}/networks",
            "networks with their VLAN and firewall zone",
        ),
    );
    v.push(
        entry(
            "firewall-policies",
            Surface::Integration,
            "/sites/{site}/firewall/policies",
            "every rule, with its origin class",
        ),
    );
    v.push(
        entry(
            "firewall-zones",
            Surface::Integration,
            "/sites/{site}/firewall/zones",
            "zones and the networks in them",
        ),
    );
    v.push(
        entry(
            "traffic-matching-lists",
            Surface::Integration,
            "/sites/{site}/traffic-matching-lists",
            "named port and address lists used by rules",
        ),
    );
    v.push(
        entry(
            "device-detail",
            Surface::Legacy,
            "/s/{legacy}/stat/device",
            "the full device records, with firmware and support state",
        ),
    );
    v.push(
        entry(
            "clients-known",
            Surface::Legacy,
            "/s/{legacy}/rest/user",
            "every client ever seen, with first and last sighting",
        ),
    );
    v.push(
        entry(
            "settings",
            Surface::Legacy,
            "/s/{legacy}/rest/setting",
            "the site configuration, secrets removed on write",
        ),
    );
    v.push(
        entry(
            "wlans",
            Surface::Legacy,
            "/s/{legacy}/rest/wlanconf",
            "wireless networks and their hardening",
        ),
    );
    v.push(
        entry(
            "network-detail",
            Surface::Legacy,
            "/s/{legacy}/rest/networkconf",
            "networks with isolation, DHCP and mDNS",
        ),
    );
    v.push(
        entry(
            "port-forwards",
            Surface::Legacy,
            "/s/{legacy}/rest/portforward",
            "what is published inbound",
        ),
    );
    v.push(
        entry(
            "health",
            Surface::Legacy,
            "/s/{legacy}/stat/health",
            "the uplink and per-subsystem counters",
        ),
    );
    v.push(
        entry(
            "sysinfo",
            Surface::Legacy,
            "/s/{legacy}/stat/sysinfo",
            "versions, ports and retention",
        ),
    );
    v.push(
        entry(
            "neighbours",
            Surface::Legacy,
            "/s/{legacy}/stat/rogueap",
            "access points the radios can hear",
        ),
    );
    v.push(
        entry(
            "firewall-policies-v2",
            Surface::V2,
            "/site/{legacy}/firewall-policies",
            "the same rules with their connection state, needed for reachability",
        ),
    );
    v.push(
        entry(
            "topology",
            Surface::V2,
            "/site/{legacy}/topology",
            "how devices and clients are linked",
        ),
    );
    v
}

/// A path with both site identifiers filled in.
pub open spec fn filled(path: Seq<char>, site: Seq<char>, legacy: Seq<char>) -> Seq<char> {
    replace(replace(path, "{site}"@, site), "{legacy}"@, legacy)
}

impl Resource {
    /// The path with both site identifiers filled in.
    pub fn path_for(&self, site: &str, legacy: &str) -> (r: String)
        ensures
            r@ == filled(self.path@, site@, legacy@),
    {
        proof {
            reveal_strlit("{site}");
            reveal_strlit("{legacy}");
        }
        let once = replace_str(self.path, "{site}", site);
        replace_str(once.as_str(), "{legacy}", legacy)
    }
}

} // verus!
