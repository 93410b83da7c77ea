//! What two instances of the viewer say to each other: the names they meet
//! under, and how a launch request carries a path.
//!
//! The first process owns the only window; every later launch forwards its
//! argument to it and exits. On Linux a request is the path's raw bytes over a
//! Unix domain socket; on Windows it is the path as UTF-16 little-endian over
//! a named pipe. Either way an empty request means "no file argument".
use vstd::prelude::*;

verus! {

// ---------------------------------------------------------------------------
// Unix: raw bytes
// ---------------------------------------------------------------------------

/// What a later launch writes for `path`: its raw bytes, or nothing at all
/// when it was started without a file argument.
pub open spec fn payload_of(path: Option<Seq<u8>>) -> Seq<u8> {
    match path {
        Some(p) => p,
        None => Seq::empty(),
    }
}

/// What the running viewer makes of one request: the path's raw bytes, or
/// `None` when the request was empty.
pub open spec fn request_of(bytes: Seq<u8>) -> Option<Seq<u8>> {
    if bytes.len() == 0 {
        None
    } else {
        Some(bytes)
    }
}

/// The bytes a later launch sends for `path`.
pub fn request_payload(path: Option<&[u8]>) -> (bytes: Vec<u8>)
    ensures
        bytes@ == payload_of(
            match path {
                Some(p) => Some(p@),
                None => None,
            },
        ),
{
    match path {
        Some(p) => {
            let mut bytes: Vec<u8> = Vec::new();
            let mut k: usize = 0;
            while k < p.len()
                invariant
                    k <= p@.len(),
                    bytes@ == p@.take(k as int),
                decreases p.len() - k,
            {
                bytes.push(p[k]);
                proof {
                    assert(p@.take(k + 1) =~= p@.take(k as int).push(p@[k as int]));
                }
                k = k + 1;
            }
            proof {
                assert(p@.take(p@.len() as int) =~= p@);
            }
            bytes
        },
        None => Vec::new(),
    }
}

/// One connection carries exactly one request; this is the path it carried.
pub fn read_request(bytes: Vec<u8>) -> (path: Option<Vec<u8>>)
    ensures
        (match path {
            Some(p) => Some(p@),
            None => None,
        }) == request_of(bytes@),
{
    if bytes.len() == 0 {
        return None;
    }
    Some(bytes)
}

/// A request carries exactly what was sent: a non-empty path arrives as
/// itself, and a launch without a path (or with an empty one) arrives as none.
pub proof fn unix_request_roundtrip(path: Option<Seq<u8>>)
    ensures
        request_of(payload_of(path)) == (match path {
            Some(p) => if p.len() > 0 {
                Some(p)
            } else {
                None
            },
            None => None,
        }),
{
}

/// The user part of names shared between instances: the user's name, or
/// `default` when it is unknown.
pub open spec fn user_or_default(user: Option<Seq<char>>, logname: Option<Seq<char>>) -> Seq<char> {
    match user {
        Some(u) => u,
        None => match logname {
            Some(l) => l,
            None => "default"@,
        },
    }
}

/// `imageviewer-<user>.sock`, the socket's file name, for `$USER` (or else
/// `$LOGNAME`, or else `default`). The user name keeps two accounts on one
/// machine apart.
pub fn socket_file_name(user: Option<&str>, logname: Option<&str>) -> (name: String)
    ensures
        name@ == "imageviewer-"@ + user_or_default(
            match user {
                Some(u) => Some(u@),
                None => None,
            },
            match logname {
                Some(l) => Some(l@),
                None => None,
            },
        ) + ".sock"@,
{
    let mut name = String::new();
    name.push_str("imageviewer-");
    match user {
        Some(u) => name.push_str(u),
        None => match logname {
            Some(l) => name.push_str(l),
            None => name.push_str("default"),
        },
    }
    name.push_str(".sock");
    name
}

/// What trying to lock the instance lock file came to.
pub enum LockOutcome {
    /// This process now holds the lock.
    Acquired,
    /// Another process holds it: a viewer is running.
    HeldElsewhere,
    /// The file system cannot lock at all.
    Unsupported,
}

/// The role a Unix launch takes.
#[derive(PartialEq, Eq, Structural, Debug)]
pub enum RoleChoice {
    /// Own the window; `holds_lock` says whether the lock file backs that.
    Primary { holds_lock: bool },
    /// Hand the path to the running viewer and exit.
    Secondary,
}

/// Decides the role of a Unix launch from the lock outcome. Where the file
/// system cannot lock, `viewer_answers` probes the socket (and is called for
/// nothing else): if something answers, a viewer is running.
pub fn choose_role<F: Fn() -> bool>(outcome: LockOutcome, viewer_answers: F) -> (r: RoleChoice)
    requires
        (outcome is Unsupported) ==> viewer_answers.requires(()),
    ensures
        (outcome is Acquired) ==> (r == (RoleChoice::Primary { holds_lock: true })),
        (outcome is HeldElsewhere) ==> (r == RoleChoice::Secondary),
        (outcome is Unsupported) ==> (exists|answered: bool|
            #[trigger] viewer_answers.ensures((), answered) && r == (if answered {
                RoleChoice::Secondary
            } else {
                (RoleChoice::Primary { holds_lock: false })
            })),
{
    match outcome {
        LockOutcome::Acquired => RoleChoice::Primary { holds_lock: true },
        LockOutcome::HeldElsewhere => RoleChoice::Secondary,
        LockOutcome::Unsupported => {
            let answered = viewer_answers();
            if answered {
                RoleChoice::Secondary
            } else {
                RoleChoice::Primary { holds_lock: false }
            }
        },
    }
}

// ---------------------------------------------------------------------------
// Windows: UTF-16 little-endian
// ---------------------------------------------------------------------------

/// `units` as little-endian bytes, two per unit.
pub open spec fn le_bytes(units: Seq<u16>) -> Seq<u8> {
    Seq::new(
        2 * units.len(),
        |k: int|
            if k % 2 == 0 {
                (units[k / 2] % 256) as u8
            } else {
                (units[k / 2] / 256) as u8
            },
    )
}

/// Little-endian byte pairs read back as units; a trailing odd byte is ignored.
pub open spec fn units_of(bytes: Seq<u8>) -> Seq<u16> {
    Seq::new(bytes.len() / 2, |k: int| (bytes[2 * k] + 256 * bytes[2 * k + 1]) as u16)
}

/// Paths travel as UTF-16, the encoding Windows itself uses, so nothing is
/// lost on the way: each code unit of the path becomes two bytes.
pub fn encode_path(units: &[u16]) -> (bytes: Vec<u8>)
    ensures
        bytes@ == le_bytes(units@),
{
    let mut bytes: Vec<u8> = Vec::new();
    let mut k: usize = 0;
    while k < units.len()
        invariant
            k <= units@.len(),
            bytes@ == le_bytes(units@.take(k as int)),
        decreases units.len() - k,
    {
        let unit = units[k];
        bytes.push((unit % 256) as u8);
        bytes.push((unit / 256) as u8);
        proof {
            let next = units@.take(k + 1);
            assert forall|m: int| 0 <= m < 2 * (k + 1) implies #[trigger] bytes@[m] == le_bytes(next)[m] by {
                assert(next[m / 2] == units@[m / 2]);
                if m < 2 * k {
                    assert(units@.take(k as int)[m / 2] == units@[m / 2]);
                }
            }
            assert(bytes@ =~= le_bytes(next));
        }
        k = k + 1;
    }
    proof {
        assert(units@.take(units@.len() as int) =~= units@);
    }
    bytes
}

/// The path a request carried, as UTF-16 code units; `None` when fewer than
/// two bytes arrived.
pub fn decode_path(bytes: &[u8]) -> (units: Option<Vec<u16>>)
    ensures
        bytes@.len() < 2 ==> units is None,
        bytes@.len() >= 2 ==> (units matches Some(u) && u@ == units_of(bytes@)),
{
    if bytes.len() < 2 {
        return None;
    }
    let mut units: Vec<u16> = Vec::new();
    let n = bytes.len();
    let pairs = n / 2;
    let mut k: usize = 0;
    while k < pairs
        invariant
            n == bytes@.len(),
            pairs == n / 2,
            k <= pairs,
            units@ == units_of(bytes@).take(k as int),
        decreases pairs - k,
    {
        assert(2 * k + 2 <= n) by (nonlinear_arith)
            requires
                k < pairs,
                pairs == n / 2,
        ;
        let low = bytes[2 * k] as u16;
        let high = bytes[2 * k + 1] as u16;
        units.push(low + 256 * high);
        proof {
            assert(units_of(bytes@).take(k + 1) =~= units_of(bytes@).take(k as int).push(
                units_of(bytes@)[k as int],
            ));
        }
        k = k + 1;
    }
    proof {
        assert(units_of(bytes@).take(pairs as int) =~= units_of(bytes@));
    }
    Some(units)
}

/// What the running viewer reads back is what a later launch wrote: the
/// little-endian encoding of a path's code units decodes to those units.
pub proof fn utf16_request_roundtrip(units: Seq<u16>)
    ensures
        units_of(le_bytes(units)) == units,
{
    let bytes = le_bytes(units);
    assert forall|k: int| 0 <= k < units.len() implies #[trigger] units_of(bytes)[k] == units[k] by {
        assert((2 * k) % 2 == 0 && (2 * k) / 2 == k);
        assert((2 * k + 1) % 2 == 1 && (2 * k + 1) / 2 == k);
        let u = units[k];
        assert(bytes[2 * k] == (u % 256) as u8);
        assert(bytes[2 * k + 1] == (u / 256) as u8);
        assert((u % 256) + 256 * (u / 256) == u);
    }
    assert(units_of(bytes) =~= units);
}

/// The UTF-16 encoding of one character.
pub open spec fn utf16_of(c: char) -> Seq<u16> {
    let v = c as u32;
    if v < 0x10000 {
        seq![v as u16]
    } else {
        seq![(0xD800 + (v - 0x10000) / 0x400) as u16, (0xDC00 + (v - 0x10000) % 0x400) as u16]
    }
}

/// The UTF-16 encoding of a string.
pub open spec fn utf16(s: Seq<char>) -> Seq<u16>
    decreases s.len(),
{
    if s.len() == 0 {
        Seq::empty()
    } else {
        utf16(s.drop_last()) + utf16_of(s.last())
    }
}

/// A NUL-terminated wide string for the Win32 `*W` entry points.
pub fn wide(value: &str) -> (units: Vec<u16>)
    ensures
        units@ == utf16(value@).push(0),
{
    let mut units: Vec<u16> = Vec::new();
    for c in it: value.chars()
        invariant
            it.seq() == value@,
            units@ == utf16(value@.take(it.index() as int)),
    {
        let ghost i = it.index();
        let v = c as u32;
        if v < 0x10000 {
            units.push(v as u16);
        } else {
            let w = v - 0x10000;
            units.push((0xD800 + w / 0x400) as u16);
            units.push((0xDC00 + w % 0x400) as u16);
        }
        proof {
            assert(value@.take(i + 1).drop_last() =~= value@.take(i as int));
            assert(value@.take(i + 1).last() == c);
            assert(units@ =~= utf16(value@.take(i + 1)));
        }
    }
    proof {
        assert(value@.take(value@.len() as int) =~= value@);
    }
    units.push(0);
    units
}

/// `c` with the characters that cannot appear in a kernel object name
/// (`\`, `/`, `:`) replaced by `_`.
pub open spec fn name_safe(c: char) -> char {
    if c == '\\' || c == '/' || c == ':' {
        '_'
    } else {
        c
    }
}

/// The user part of the mutex and pipe names: `$USERNAME`, or `default`
/// when it is unknown, made safe for a kernel object name. It keeps two
/// accounts on one machine from sharing a mutex or a pipe.
pub fn user_suffix(username: Option<&str>) -> (suffix: String)
    ensures
        suffix@ == (match username {
            Some(u) => u@,
            None => "default"@,
        }).map_values(|c: char| name_safe(c)),
{
    let name = match username {
        Some(u) => u,
        None => "default",
    };
    let mut suffix = String::new();
    for c in it: name.chars()
        invariant
            it.seq() == name@,
            suffix@ == name@.take(it.index() as int).map_values(|c: char| name_safe(c)),
    {
        let ghost i = it.index();
        if c == '\\' || c == '/' || c == ':' {
            suffix.push('_');
        } else {
            suffix.push(c);
        }
        proof {
            assert(name@.take(i + 1).map_values(|c: char| name_safe(c)) =~= name@.take(i as int).map_values(
                |c: char| name_safe(c),
            ).push(name_safe(c)));
        }
    }
    proof {
        assert(name@.take(name@.len() as int) =~= name@);
    }
    suffix
}

/// The name of the mutex that decides which instance is the primary one.
pub fn mutex_name(suffix: &str) -> (name: String)
    ensures
        name@ == "Local\\imageviewer-"@ + suffix@,
{
    let mut name = String::new();
    name.push_str("Local\\imageviewer-");
    name.push_str(suffix);
    name
}

/// The name of the pipe that launch requests travel through.
pub fn pipe_name(suffix: &str) -> (name: String)
    ensures
        name@ == "\\\\.\\pipe\\imageviewer-"@ + suffix@,
{
    let mut name = String::new();
    name.push_str("\\\\.\\pipe\\imageviewer-");
    name.push_str(suffix);
    name
}

} // verus!
