//! Naming the frames of a console's event stream.
//!
//! The frame format of these streams is undocumented, so a frame is named from
//! whatever it offers and otherwise described by the keys it carries, rather
//! than being called unknown.

use vstd::prelude::*;
use vstd::string::StringSliceAdditionalSpecFns;
use crate::client::{esc, escaped};
use crate::json::{jget, jget2, Json, JsonV};
use crate::text::{decimal, decimal_string, join, join_strings, str_eq};

verus! {

/// The text a member holds, when it holds text.
pub open spec fn text_of(v: Option<JsonV>) -> Option<Seq<char>> {
    match v {
        Some(JsonV::Str(s)) => Some(s),
        _ => None,
    }
}

/// The names of the first `n` members of an object.
pub open spec fn first_keys(m: Seq<(Seq<char>, JsonV)>, n: int) -> Seq<Seq<char>> {
    m.take(if m.len() < n { m.len() as int } else { n }).map_values(|p: (Seq<char>, JsonV)| p.0)
}

/// A short name for a frame: the legacy envelope's `meta.message`, else the
/// first of `type`, `event`, `action` and `modelKey` that holds text, else the
/// first four keys of an object, else `frame`.
pub open spec fn frame_label(v: JsonV) -> Seq<char> {
    match text_of(jget2(v, "meta"@, "message"@)) {
        Some(m) => m,
        None => match text_of(jget(v, "type"@)) {
            Some(s) => s,
            None => match text_of(jget(v, "event"@)) {
                Some(s) => s,
                None => match text_of(jget(v, "action"@)) {
                    Some(s) => s,
                    None => match text_of(jget(v, "modelKey"@)) {
                        Some(s) => s,
                        None => match v {
                            JsonV::Obj(m) => join(first_keys(m, 4), ", "@),
                            _ => "frame"@,
                        },
                    },
                },
            },
        },
    }
}

fn text_at(v: &Json, k: &str) -> (r: Option<String>)
    ensures
        match r {
            Some(s) => text_of(jget(v@, k@)) == Some(s@),
            None => text_of(jget(v@, k@)) is None,
        },
{
    match v.get(k) {
        Some(Json::Str(s)) => Some(s.clone()),
        _ => None,
    }
}

/// A short name for a frame, from whatever the payload offers.
pub fn label(v: &Json) -> (r: String)
    ensures
        r@ == frame_label(v@),
{
    match v.get2("meta", "message") {
        Some(Json::Str(m)) => {
            return m.clone();
        },
        _ => {},
    }
    match text_at(v, "type") {
        Some(s) => {
            return s;
        },
        None => {},
    }
    match text_at(v, "event") {
        Some(s) => {
            return s;
        },
        None => {},
    }
    match text_at(v, "action") {
        Some(s) => {
            return s;
        },
        None => {},
    }
    match text_at(v, "modelKey") {
        Some(s) => {
            return s;
        },
        None => {},
    }
    match v {
        Json::Obj(m) => {
            proof {
                crate::json::lemma_members_view(m@);
            }
            let ghost mv = Json::members_view(m@);
            let n: usize = if m.len() < 4 {
                m.len()
            } else {
                4
            };
            let mut keys: Vec<String> = Vec::new();
            let mut i: usize = 0;
            while i < n
                invariant
                    i <= n,
                    n <= m@.len(),
                    n == (if mv.len() < 4 { mv.len() as int } else { 4 }),
                    mv == Json::members_view(m@),
                    mv.len() == m@.len(),
                    forall|j: int| 0 <= j < mv.len() ==> #[trigger] mv[j] == (m@[j].0@, m@[j].1@),
                    keys@.map_values(|s: String| s@) == mv.take(i as int).map_values(
                        |p: (Seq<char>, JsonV)| p.0,
                    ),
                decreases n - i,
            {
                let ghost before = keys@;
                keys.push(m[i].0.clone());
                proof {
                    crate::text::lemma_map_push(before, keys@.last(), |s: String| s@);
                    assert(mv.take(i + 1) =~= mv.take(i as int).push(mv[i as int]));
                    crate::text::lemma_map_push(
                        mv.take(i as int),
                        mv[i as int],
                        |p: (Seq<char>, JsonV)| p.0,
                    );
                }
                i += 1;
            }
            join_strings(&keys, ", ")
        },
        _ => String::from_str("frame"),
    }
}

/// The path of a stream on the console, for a channel by its name.
pub open spec fn channel_path_spec(channel: Seq<char>, legacy: Seq<u8>) -> Seq<char> {
    if channel == "protect-devices"@ {
        "/proxy/protect/integration/v1/subscribe/devices"@
    } else if channel == "protect-events"@ {
        "/proxy/protect/integration/v1/subscribe/events"@
    } else {
        "/proxy/network/wss/s/"@ + escaped(legacy) + "/events"@
    }
}

/// The path of a stream on the console, for a channel by its name; the
/// network channel is addressed by the site's legacy name.
pub fn channel_path(channel: &str, legacy: &str) -> (r: String)
    ensures
        r@ == channel_path_spec(channel@, legacy.spec_bytes()),
{
    if str_eq(channel, "protect-devices") {
        String::from_str("/proxy/protect/integration/v1/subscribe/devices")
    } else if str_eq(channel, "protect-events") {
        String::from_str("/proxy/protect/integration/v1/subscribe/events")
    } else {
        let mut p = String::from_str("/proxy/network/wss/s/");
        let e = esc(legacy);
        p.append(e.as_str());
        p.append("/events");
        p
    }
}

/// Whether the frame count has reached the limit the run was given.
pub fn reached(seen: usize, max: Option<usize>) -> (r: bool)
    ensures
        r == (match max {
            Some(n) => seen >= n,
            None => false,
        }),
{
    match max {
        Some(n) => seen >= n,
        None => false,
    }
}

/// How a closing stream is described: its code and reason when the console
/// sent a close frame that carries them, nothing otherwise.
pub open spec fn close_text(frame: Option<(u16, Seq<char>)>) -> Seq<char> {
    match frame {
        Some((code, reason)) => " with code "@ + decimal(code as nat) + " ("@ + (if reason.len()
            == 0 {
            "no reason given"@
        } else {
            reason
        }) + ")"@,
        None => Seq::empty(),
    }
}

/// Describe how the console closed a stream, for the warning that follows.
pub fn close_detail(frame: Option<(u16, String)>) -> (r: String)
    ensures
        r@ == close_text(
            match frame {
                Some((c, t)) => Some((c, t@)),
                None => None,
            },
        ),
{
    match frame {
        Some((code, reason)) => {
            let mut out = String::from_str(" with code ");
            out.append(decimal_string(code as u64).as_str());
            out.append(" (");
            if reason.as_str().is_empty() {
                out.append("no reason given");
            } else {
                out.append(reason.as_str());
            }
            out.append(")");
            out
        },
        None => String::new(),
    }
}

/// A close within two seconds of opening is the console refusing the
/// stream rather than ending it.
pub fn closed_early(elapsed_ms: u128) -> (r: bool)
    ensures
        r == (elapsed_ms < 2000),
{
    elapsed_ms < 2000
}

/// Whether a run reads as the channel turning the key away: it closed early
/// and never sent a frame.
pub fn turned_away(seen: usize, closed_early: bool) -> (r: bool)
    ensures
        r == (seen == 0 && closed_early),
{
    seen == 0 && closed_early
}

} // verus!
