//! Where the hardware and client commands send their requests, and what they
//! send.
//!
//! Every identifier the operator types goes into a path escaped, so an id can
//! never reach a different resource than the one it names.

use vstd::prelude::*;
use vstd::string::StringSliceAdditionalSpecFns;
use crate::client::{esc, escaped};
use crate::json::{put, Json, JsonV};
use crate::text::{decimal, decimal_string};

verus! {

/// `/sites/{site}/{kind}/{id}`, both identifiers escaped.
pub open spec fn item_path_spec(site: Seq<u8>, kind: Seq<char>, id: Seq<u8>) -> Seq<char> {
    "/sites/"@ + escaped(site) + "/"@ + kind + "/"@ + escaped(id)
}

fn item_path(site: &str, kind: &str, id: &str) -> (r: String)
    ensures
        r@ == item_path_spec(site.spec_bytes(), kind@, id.spec_bytes()),
{
    let mut p = String::from_str("/sites/");
    let s = esc(site);
    p.append(s.as_str());
    p.append("/");
    p.append(kind);
    p.append("/");
    let i = esc(id);
    p.append(i.as_str());
    p
}

/// One device of a site.
pub fn device_path(site: &str, id: &str) -> (r: String)
    ensures
        r@ == item_path_spec(site.spec_bytes(), "devices"@, id.spec_bytes()),
{
    item_path(site, "devices", id)
}

/// The latest statistics of one device.
pub fn device_stats_path(site: &str, id: &str) -> (r: String)
    ensures
        r@ == item_path_spec(site.spec_bytes(), "devices"@, id.spec_bytes())
            + "/statistics/latest"@,
{
    let mut p = item_path(site, "devices", id);
    p.append("/statistics/latest");
    p
}

/// Where actions on one device are posted.
pub fn device_actions_path(site: &str, id: &str) -> (r: String)
    ensures
        r@ == item_path_spec(site.spec_bytes(), "devices"@, id.spec_bytes()) + "/actions"@,
{
    let mut p = item_path(site, "devices", id);
    p.append("/actions");
    p
}

/// Where actions on one port of a device are posted.
pub fn port_actions_path(site: &str, id: &str, port: u32) -> (r: String)
    ensures
        r@ == item_path_spec(site.spec_bytes(), "devices"@, id.spec_bytes())
            + "/interfaces/ports/"@ + decimal(port as nat) + "/actions"@,
{
    let mut p = item_path(site, "devices", id);
    p.append("/interfaces/ports/");
    let n = decimal_string(port as u64);
    p.append(n.as_str());
    p.append("/actions");
    p
}

/// One client of a site.
pub fn client_path(site: &str, id: &str) -> (r: String)
    ensures
        r@ == item_path_spec(site.spec_bytes(), "clients"@, id.spec_bytes()),
{
    item_path(site, "clients", id)
}

/// Where actions on one client are posted.
pub fn client_actions_path(site: &str, id: &str) -> (r: String)
    ensures
        r@ == item_path_spec(site.spec_bytes(), "clients"@, id.spec_bytes()) + "/actions"@,
{
    let mut p = item_path(site, "clients", id);
    p.append("/actions");
    p
}

/// The body of an action request: `{"action": what}`.
pub fn action_body(what: &str) -> (r: Json)
    ensures
        r@ == JsonV::Obj(seq![("action"@, JsonV::Str(what@))]),
{
    let mut m: Vec<(String, Json)> = Vec::new();
    assert(Json::members_view(m@) =~= Seq::<(Seq<char>, JsonV)>::empty());
    put(&mut m, "action", Json::Str(String::from_str(what)));
    assert(Json::members_view(m@) =~= seq![("action"@, JsonV::Str(what@))]);
    Json::Obj(m)
}

} // verus!
