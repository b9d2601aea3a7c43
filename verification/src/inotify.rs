//! What a batch of inotify events on the configuration file asks for.
use vstd::prelude::*;

verus! {

/// The file was written and closed.
pub const IN_CLOSE_WRITE: u32 = 0x8;

/// The file was deleted.
pub const IN_DELETE_SELF: u32 = 0x400;

/// The file was moved.
pub const IN_MOVE_SELF: u32 = 0x800;

/// The size of an event's fixed part (`struct inotify_event`).
pub const EVENT_HEADER: usize = 16;

/// The 32-bit number stored at `b[off..off + 4]` in the given byte order.
pub open spec fn u32_at(b: Seq<u8>, off: int, little_endian: bool) -> u32 {
    if little_endian {
        (b[off] as u32) | ((b[off + 1] as u32) << 8u32) | ((b[off + 2] as u32) << 16u32) | ((b[off
            + 3] as u32) << 24u32)
    } else {
        (b[off + 3] as u32) | ((b[off + 2] as u32) << 8u32) | ((b[off + 1] as u32) << 16u32) | ((b[off]
            as u32) << 24u32)
    }
}

/// Whether an event mask says the file is gone from its place.
pub open spec fn gone(mask: u32) -> bool {
    mask & (IN_DELETE_SELF | IN_MOVE_SELF) != 0
}

/// The bytes left after `off`.
pub open spec fn left(n: nat, off: nat) -> nat {
    if off <= n {
        (n - off) as nat
    } else {
        0
    }
}

/// Walking the events of `b` from `off` (each a header, whose mask is at
/// offset 4 and whose name length at offset 12, then the name): whether
/// some event asks for a reload (written, or gone), and whether some event
/// asks for the watch to be set again (gone).
pub open spec fn scan_events(b: Seq<u8>, off: nat, little_endian: bool) -> (bool, bool)
    decreases left(b.len(), off),
{
    if off + EVENT_HEADER > b.len() {
        (false, false)
    } else {
        let mask = u32_at(b, off + 4int, little_endian);
        let len = u32_at(b, off + 12int, little_endian);
        let rest = scan_events(b, (off + EVENT_HEADER + len) as nat, little_endian);
        (rest.0 || mask & IN_CLOSE_WRITE != 0 || gone(mask), rest.1 || gone(mask))
    }
}

/// What the events of `b` ask for: none, a reload (1), or a reload and a
/// new watch (2).
pub open spec fn events_verdict(b: Seq<u8>, little_endian: bool) -> Option<u8> {
    let (reload, rewatch) = scan_events(b, 0, little_endian);
    if reload {
        Some(if rewatch {
            2u8
        } else {
            1u8
        })
    } else {
        None
    }
}

proof fn lemma_scan_shift(ev: Seq<u8>, rest: Seq<u8>, off: nat, le: bool)
    ensures
        scan_events(ev + rest, (ev.len() + off) as nat, le) == scan_events(rest, off, le),
    decreases left(rest.len(), off),
{
    let b = ev + rest;
    let o = (ev.len() + off) as nat;
    if off + EVENT_HEADER <= rest.len() {
        assert(b[o + 4int] == rest[off + 4int]);
        assert(b[o + 5int] == rest[off + 5int]);
        assert(b[o + 6int] == rest[off + 6int]);
        assert(b[o + 7int] == rest[off + 7int]);
        assert(b[o + 12int] == rest[off + 12int]);
        assert(b[o + 13int] == rest[off + 13int]);
        assert(b[o + 14int] == rest[off + 14int]);
        assert(b[o + 15int] == rest[off + 15int]);
        assert(u32_at(b, o + 4int, le) == u32_at(rest, off + 4int, le));
        assert(u32_at(b, o + 12int, le) == u32_at(rest, off + 12int, le));
        let len = u32_at(rest, off + 12int, le);
        lemma_scan_shift(ev, rest, (off + EVENT_HEADER + len) as nat, le);
        assert((o + EVENT_HEADER + len) as nat == (ev.len() + (off + EVENT_HEADER + len) as nat) as nat);
    }
}

proof fn lemma_rewatch_reloads(b: Seq<u8>, off: nat, le: bool)
    ensures
        scan_events(b, off, le).1 ==> scan_events(b, off, le).0,
    decreases left(b.len(), off),
{
    if off + EVENT_HEADER <= b.len() {
        let len = u32_at(b, off + 12int, le);
        lemma_rewatch_reloads(b, (off + EVENT_HEADER + len) as nat, le);
    }
}

/// What an event `ev` (a whole event: its header, whose name length is at
/// offset 12, then its name) put in front of a batch `rest` asks for, with
/// `mask` its event mask: a removal or move of the file asks for a reload
/// and a new watch whatever follows; a write asks for at least a reload;
/// any other event adds nothing to what `rest` asks for.
pub proof fn lemma_event_in_front(ev: Seq<u8>, rest: Seq<u8>, le: bool)
    requires
        ev.len() >= EVENT_HEADER,
        ev.len() == EVENT_HEADER + u32_at(ev, 12, le),
    ensures
        ({
            let mask = u32_at(ev, 4, le);
            let v = events_verdict(ev + rest, le);
            &&& mask & (IN_DELETE_SELF | IN_MOVE_SELF) != 0 ==> v == Some(2u8)
            &&& mask & (IN_DELETE_SELF | IN_MOVE_SELF) == 0 && mask & IN_CLOSE_WRITE != 0 ==> v == (if events_verdict(
                rest,
                le,
            ) == Some(2u8) {
                Some(2u8)
            } else {
                Some(1u8)
            })
            &&& mask & (IN_DELETE_SELF | IN_MOVE_SELF) == 0 && mask & IN_CLOSE_WRITE == 0 ==> v == events_verdict(rest, le)
        }),
{
    let b = ev + rest;
    assert(b[4] == ev[4] && b[5] == ev[5] && b[6] == ev[6] && b[7] == ev[7]);
    assert(b[12] == ev[12] && b[13] == ev[13] && b[14] == ev[14] && b[15] == ev[15]);
    assert(u32_at(b, 4int, le) == u32_at(ev, 4int, le));
    assert(u32_at(b, 12int, le) == u32_at(ev, 12int, le));
    lemma_scan_shift(ev, rest, 0, le);
    let mask = u32_at(ev, 4, le);
    let len = u32_at(ev, 12, le);
    let nxt = (0nat + EVENT_HEADER + len) as nat;
    assert(nxt == (ev.len() + 0nat) as nat);
    let rs = scan_events(rest, 0, le);
    lemma_rewatch_reloads(rest, 0, le);
    assert(scan_events(b, nxt, le) == rs);
    assert(scan_events(b, 0, le) == (rs.0 || mask & IN_CLOSE_WRITE != 0 || gone(mask), rs.1 || gone(mask)));
}

fn read_u32(b: &[u8], off: usize, little_endian: bool) -> (r: u32)
    requires
        off + 4 <= b@.len(),
        b@.len() <= usize::MAX,
    ensures
        r == u32_at(b@, off as int, little_endian),
{
    if little_endian {
        (b[off] as u32) | ((b[off + 1] as u32) << 8u32) | ((b[off + 2] as u32) << 16u32) | ((b[off
            + 3] as u32) << 24u32)
    } else {
        (b[off + 3] as u32) | ((b[off + 2] as u32) << 8u32) | ((b[off + 1] as u32) << 16u32) | ((b[off]
            as u32) << 24u32)
    }
}

/// What the events read into `b` ask for; see `events_verdict`. The kernel
/// writes the numbers in the machine's byte order, given by `little_endian`.
pub fn inotify_verdict(b: &[u8], little_endian: bool) -> (r: Option<u8>)
    ensures
        r == events_verdict(b@, little_endian),
{
    let n = b.len() as u128;
    let mut off: u128 = 0;
    let mut reload = false;
    let mut rewatch = false;
    while off + 16 <= n
        invariant
            n == b@.len(),
            n <= usize::MAX,
            off <= n + 0x1_0000_0010,
            ({
                let all = scan_events(b@, 0, little_endian);
                let rest = scan_events(b@, off as nat, little_endian);
                &&& all.0 == (reload || rest.0)
                &&& all.1 == (rewatch || rest.1)
            }),
        decreases n + 0x1_0000_0010 - off,
    {
        let o = off as usize;
        let mask = read_u32(b, o + 4, little_endian);
        let len = read_u32(b, o + 12, little_endian);
        if mask & IN_CLOSE_WRITE != 0 {
            reload = true;
        }
        if mask & (IN_DELETE_SELF | IN_MOVE_SELF) != 0 {
            reload = true;
            rewatch = true;
        }
        off = off + 16 + len as u128;
    }
    if reload {
        Some(
            if rewatch {
                2
            } else {
                1
            },
        )
    } else {
        None
    }
}

} // verus!
