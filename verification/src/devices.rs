//! What is settled once, when the two devices and the link to the other machine are
//! set up.

use vstd::prelude::*;
use crate::scan::starts_with;
use crate::scan;
use crate::text::chars_of;
use crate::token::MAX_LANES;

verus! {

/// What a device can do.
#[derive(Clone, Copy, PartialEq, Eq, Debug)]
pub struct DeviceTraits {
    /// What its timings are labelled with.
    pub label: &'static str,
    pub gfx11: bool,
    /// The indexer can score with the matrix units.
    pub indexer_wmma: bool,
}

/// What a device of that architecture can do.
pub fn for_arch(arch: &str, integrated: bool) -> (r: DeviceTraits)
    ensures
        r.label@ == if integrated {
            "igpu"@
        } else {
            "dgpu"@
        },
        r.gfx11 == scan::begins(arch@, "gfx11"@),
        r.indexer_wmma == (scan::begins(arch@, "gfx1200"@) || scan::begins(arch@, "gfx1201"@)),
{
    let v = chars_of(arch);
    let label = if integrated {
        "igpu"
    } else {
        "dgpu"
    };
    DeviceTraits {
        label,
        gfx11: starts_with(v.as_slice(), "gfx11"),
        indexer_wmma: starts_with(v.as_slice(), "gfx1200") || starts_with(v.as_slice(), "gfx1201"),
    }
}

/// Why the two devices cannot work together.
#[derive(Clone, Copy, PartialEq, Eq, Structural, Debug)]
pub enum PeerError {
    /// The first device cannot reach the second one's memory.
    FirstToSecond { first: i32, second: i32 },
    /// The second device cannot reach the first one's memory.
    SecondToFirst { first: i32, second: i32 },
}

/// Checks that each device can reach the other's memory.
pub fn check_peers(first: i32, second: i32, forth: bool, back: bool) -> (r: Result<(), PeerError>)
    ensures
        r == (if !forth {
            Err::<(), PeerError>(PeerError::FirstToSecond { first, second })
        } else if !back {
            Err(PeerError::SecondToFirst { first, second })
        } else {
            Ok(())
        }),
{
    if !forth {
        return Err(PeerError::FirstToSecond { first, second });
    }
    if !back {
        return Err(PeerError::SecondToFirst { first, second });
    }
    Ok(())
}

/// The set of events that a lane of a step uses. Two lanes never share one.
pub fn sync_events_lane(lane: usize) -> (r: usize)
    requires
        lane < MAX_LANES,
    ensures
        r == lane,
        r < MAX_LANES,
{
    lane
}

/// How the socket to the other machine is set.
#[derive(Clone, Copy, PartialEq, Eq, Structural, Debug)]
pub struct SocketOptions {
    pub busy_poll_us: u32,
    pub quickack: bool,
}

/// How the socket is set: the defaults, with what was asked for instead.
pub fn socket_options(default: SocketOptions, busy_poll_us: Option<u32>, quickack: bool) -> (r:
    SocketOptions)
    ensures
        r.busy_poll_us == match busy_poll_us {
            Some(us) => us,
            None => default.busy_poll_us,
        },
        r.quickack == (default.quickack || quickack),
{
    SocketOptions {
        busy_poll_us: match busy_poll_us {
            Some(us) => us,
            None => default.busy_poll_us,
        },
        quickack: default.quickack || quickack,
    }
}

/// The layers before `n` of which the other machine has experts.
pub open spec fn owned(counts: Seq<u32>, n: nat) -> Seq<u32>
    decreases n,
{
    if n == 0 {
        Seq::empty()
    } else if counts[n - 1] > 0 {
        owned(counts, (n - 1) as nat).push((n - 1) as u32)
    } else {
        owned(counts, (n - 1) as nat)
    }
}

/// The layers of which the other machine has experts, by how many it has of each
/// layer, and how many it has of the first of them.
pub fn owned_layers(counts: &[u32]) -> (r: (Vec<u32>, u32))
    requires
        counts.len() <= u32::MAX,
    ensures
        r.0@ == owned(counts@, counts@.len()),
        r.1 == if r.0.len() > 0 {
            counts@[r.0@[0] as int]
        } else {
            0
        },
{
    let mut layers: Vec<u32> = Vec::new();
    let mut first: u32 = 0;
    let mut i: usize = 0;
    while i < counts.len()
        invariant
            i <= counts.len() <= u32::MAX,
            layers@ == owned(counts@, i as nat),
            first == if layers.len() > 0 {
                counts@[layers@[0] as int]
            } else {
                0
            },
        decreases counts.len() - i,
    {
        if counts[i] > 0 {
            if layers.len() == 0 {
                first = counts[i];
            }
            layers.push(i as u32);
        }
        i = i + 1;
    }
    (layers, first)
}

} // verus!
