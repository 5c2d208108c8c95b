//! The decisions an engine binding makes around a session: building one
//! from a loosely typed configuration (a script dictionary, say), and
//! telling tracked properties from untracked ones by name. The engine's
//! own object model and calls stay in the binding.
use vstd::prelude::*;

use crate::session::{BuilderSettings, Session, SessionBuilder};

verus! {

/// A configuration that cannot build a session.
#[derive(Debug, Clone, Copy, PartialEq, Eq, Structural)]
pub enum ConfigError {
    /// The required `tick_rate_hz` entry is missing.
    MissingTickRateHz,
    /// The required `peer_count` entry is missing.
    MissingPeerCount,
}

/// The builder settings a configuration gives: integers are narrowed to
/// the builder's widths as `as` narrows them; `local_peer_id` defaults to
/// 0; a `retention` that is not positive keeps the default window; an
/// empty `record_to_path` means no recording.
pub open spec fn config_settings(
    tick_rate_hz: i64,
    peer_count: i64,
    local_peer_id: Option<i64>,
    retention: Option<i64>,
    record_to_path: Option<Seq<char>>,
) -> (u32, u32, u16, usize, Option<Seq<char>>) {
    (
        tick_rate_hz as u32,
        peer_count as u32,
        match local_peer_id {
            Some(l) => l as u16,
            None => 0,
        },
        match retention {
            Some(n) => if n > 0 {
                n as usize
            } else {
                600
            },
            None => 600,
        },
        match record_to_path {
            Some(p) => if p.len() > 0 {
                Some(p)
            } else {
                None
            },
            None => None,
        },
    )
}

/// Builds a session builder from configuration entries, `None` for an
/// entry that is absent. `tick_rate_hz` and `peer_count` are required.
pub fn builder_from_config(
    tick_rate_hz: Option<i64>,
    peer_count: Option<i64>,
    local_peer_id: Option<i64>,
    retention: Option<i64>,
    record_to_path: Option<String>,
) -> (r: Result<SessionBuilder, ConfigError>)
    ensures
        match r {
            Ok(b) => {
                &&& tick_rate_hz is Some && peer_count is Some
                &&& b@.build_id@ == Seq::new(16, |i: int| 0u8)
                &&& (b@.tick_rate_hz, b@.peer_count, b@.local_peer_id, b@.retention, b@.record_to)
                    == config_settings(
                    tick_rate_hz->0,
                    peer_count->0,
                    local_peer_id,
                    retention,
                    match record_to_path {
                        Some(p) => Some(p@),
                        None => None,
                    },
                )
            },
            Err(ConfigError::MissingTickRateHz) => tick_rate_hz is None,
            Err(ConfigError::MissingPeerCount) => tick_rate_hz is Some && peer_count is None,
        },
{
    let t = match tick_rate_hz {
        Some(t) => t,
        None => {
            return Err(ConfigError::MissingTickRateHz);
        },
    };
    let p = match peer_count {
        Some(p) => p,
        None => {
            return Err(ConfigError::MissingPeerCount);
        },
    };
    let l: u16 = match local_peer_id {
        Some(l) => l as u16,
        None => 0,
    };
    let mut builder = Session::builder().tick_rate_hz(t as u32).peer_count(p as u32).local_peer_id(
        l,
    );
    match retention {
        Some(n) => {
            if n > 0 {
                builder = builder.retention(n as usize);
            }
        },
        None => {},
    }
    match record_to_path {
        Some(path) => {
            if !path.as_str().is_empty() {
                builder = builder.record_to(path.as_str());
            }
        },
        None => {},
    }
    Ok(builder)
}

/// The name prefix that marks a property as tracked.
pub const TRACKED_PREFIX: &'static str = "foldback_";

/// The characters of [`TRACKED_PREFIX`].
pub open spec fn tracked_prefix() -> Seq<char> {
    seq!['f', 'o', 'l', 'd', 'b', 'a', 'c', 'k', '_']
}

/// A name starts with [`TRACKED_PREFIX`].
pub open spec fn is_tracked_name(name: Seq<char>) -> bool {
    name.len() >= 9 && name.take(9) == tracked_prefix()
}

/// Whether a property name marks the property as tracked.
pub fn has_tracked_prefix(name: &str) -> (b: bool)
    ensures
        b == is_tracked_name(name@),
{
    proof {
        reveal_strlit("foldback_");
    }
    let prefix: &str = TRACKED_PREFIX;
    assert(prefix@ == tracked_prefix());
    let n = name.unicode_len();
    if n < 9 {
        return false;
    }
    let mut i: usize = 0;
    while i < 9
        invariant
            i <= 9,
            n == name@.len(),
            n >= 9,
            prefix@ == tracked_prefix(),
            forall|k: int| 0 <= k < i ==> name@[k] == #[trigger] tracked_prefix()[k],
        decreases 9 - i,
    {
        if name.get_char(i) != prefix.get_char(i) {
            assert(name@.take(9)[i as int] != tracked_prefix()[i as int]);
            return false;
        }
        i = i + 1;
    }
    assert(name@.take(9) =~= tracked_prefix());
    true
}

/// The names for which [`is_tracked_name`] is `wanted`, in order.
pub open spec fn names_with(names: Seq<Seq<char>>, wanted: bool) -> Seq<Seq<char>>
    decreases names.len(),
{
    if names.len() == 0 {
        seq![]
    } else {
        let prev = names_with(names.drop_last(), wanted);
        if is_tracked_name(names.last()) == wanted {
            prev.push(names.last())
        } else {
            prev
        }
    }
}

/// Splits an object's property names into tracked and untracked ones, each
/// in the order given.
pub fn list_tracked(names: &[String]) -> (r: (Vec<String>, Vec<String>))
    ensures
        r.0@.map_values(|s: String| s@) == names_with(names@.map_values(|s: String| s@), true),
        r.1@.map_values(|s: String| s@) == names_with(names@.map_values(|s: String| s@), false),
{
    let ghost nv = names@.map_values(|s: String| s@);
    let mut hashed: Vec<String> = Vec::new();
    let mut other: Vec<String> = Vec::new();
    let mut i: usize = 0;
    while i < names.len()
        invariant
            i <= names@.len(),
            nv == names@.map_values(|s: String| s@),
            hashed@.map_values(|s: String| s@) == names_with(nv.take(i as int), true),
            other@.map_values(|s: String| s@) == names_with(nv.take(i as int), false),
        decreases names@.len() - i,
    {
        proof {
            assert(nv.take(i + 1).drop_last() =~= nv.take(i as int));
            assert(nv.take(i + 1).last() == nv[i as int]);
        }
        let name = names[i].clone();
        let ghost h0 = hashed@;
        let ghost o0 = other@;
        if has_tracked_prefix(name.as_str()) {
            hashed.push(name);
            assert(hashed@.map_values(|s: String| s@) =~= h0.map_values(|s: String| s@).push(
                nv[i as int],
            ));
        } else {
            other.push(name);
            assert(other@.map_values(|s: String| s@) =~= o0.map_values(|s: String| s@).push(
                nv[i as int],
            ));
        }
        i = i + 1;
    }
    assert(nv.take(names@.len() as int) =~= nv);
    (hashed, other)
}

} // verus!
