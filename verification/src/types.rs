use crate::profile::text::{self, push_chars, push_decimal, push_str, string_from_chars};
use vstd::prelude::*;

verus! {

/// Stable identifier for a managed buffer.
#[derive(Clone, Copy, Debug, PartialEq, Eq, Structural, Hash, PartialOrd, Ord)]
pub struct BufferKey(pub u64);

/// The integer identifiers of a sequence of buffer keys.
pub open spec fn key_ids(s: Seq<BufferKey>) -> Seq<u64> {
    s.map_values(|k: BufferKey| k.0)
}

/// Placement tier for a managed buffer.
#[derive(Clone, Copy, Debug, PartialEq, Eq, Structural, Hash)]
pub enum TierLevel {
    /// Fast device memory.
    Vram,
    /// Pinned or pageable host memory.
    Host,
    /// Durable overflow storage.
    Storage,
}

impl TierLevel {
    /// The next colder tier, if any.
    pub open spec fn spec_colder(self) -> Option<TierLevel> {
        match self {
            TierLevel::Vram => Some(TierLevel::Host),
            TierLevel::Host => Some(TierLevel::Storage),
            TierLevel::Storage => None,
        }
    }

    /// Returns the next colder tier.
    #[verifier::when_used_as_spec(spec_colder)]
    pub fn colder(self) -> (res: Option<TierLevel>)
        ensures
            res == self.spec_colder(),
    {
        match self {
            TierLevel::Vram => Some(TierLevel::Host),
            TierLevel::Host => Some(TierLevel::Storage),
            TierLevel::Storage => None,
        }
    }
}

/// Access counters for one buffer.
#[derive(Clone, Debug, PartialEq, Eq, Structural)]
pub struct AccessStats {
    /// Number of observed accesses.
    pub access_count: u64,
    /// Monotonic timestamp of the most recent access.
    pub last_access_tick: u64,
    /// Buffer size in bytes.
    pub bytes: usize,
}

impl AccessStats {
    /// Creates zeroed access statistics for a buffer size.
    pub fn new(bytes: usize) -> (res: AccessStats)
        ensures
            res.access_count == 0,
            res.last_access_tick == 0,
            res.bytes == bytes,
    {
        AccessStats { access_count: 0, last_access_tick: 0, bytes }
    }
}

/// The error of a failed filesystem operation, carried through unchanged.
#[verifier::external_type_specification]
#[verifier::external_body]
pub struct ExIoError(std::io::Error);

/// Typed error returned by tiering, tracking, prediction, and profile code.
#[derive(Debug)]
pub enum TierError {
    /// A key was already present.
    DuplicateKey(BufferKey),
    /// A requested key was absent.
    MissingKey(BufferKey),
    /// Capacity would be exceeded.
    CapacityExceeded {
        /// Requested bytes.
        requested: usize,
        /// Available or maximum bytes.
        available: usize,
    },
    /// Input violates an API contract.
    InvalidInput(String),
    /// Filesystem operation failed.
    Io(std::io::Error),
    /// Profile data could not be parsed.
    Parse(String),
}

/// The debug form of a buffer key.
pub open spec fn key_debug(k: BufferKey) -> Seq<char> {
    "BufferKey("@ + text::decimal(k.0 as nat) + ")"@
}

/// The repair hint closing the message of a filesystem error.
pub open spec fn io_hint() -> Seq<char> {
    ". Fix: verify the profile path and permissions."@
}

/// The message of an error that carries no filesystem error: what went
/// wrong, then how to fix it.
pub open spec fn error_text(e: TierError) -> Seq<char> {
    match e {
        TierError::DuplicateKey(k) => "buffer key "@ + key_debug(k)
            + " already exists. Fix: evict it before reinserting."@,
        TierError::MissingKey(k) => "buffer key "@ + key_debug(k) + " is missing. Fix: insert it first."@,
        TierError::CapacityExceeded { requested, available } => "capacity exceeded: requested "@
            + text::decimal(requested as nat) + " bytes, available "@ + text::decimal(
            available as nat,
        ) + ". Fix: increase tier capacity or evict colder buffers."@,
        TierError::InvalidInput(m) => m@ + ". Fix: pass a valid value."@,
        TierError::Io(_) => io_hint(),
        TierError::Parse(m) => m@ + ". Fix: load a valid helix profile JSON."@,
    }
}

/// The characters of a string.
fn string_chars(s: &String) -> (res: Vec<char>)
    ensures
        res@ == s@,
{
    text::chars_of(s.as_str())
}

impl TierError {
    /// The message of the error: what went wrong, then a repair hint starting
    /// with `Fix:`. For a filesystem error, what went wrong is that error's own
    /// display text, as its `to_string` gives it.
    pub fn to_string(&self) -> (res: String)
        ensures
            match self {
                TierError::Io(err) => exists|m: String|
                    #[trigger] vstd::string::to_string_from_display_ensures::<std::io::Error>(&err, m)
                        && res@ == m@ + io_hint(),
                _ => res@ == error_text(*self),
            },
    {
        let mut out: Vec<char> = Vec::new();
        match self {
            TierError::DuplicateKey(k) => {
                push_str(&mut out, "buffer key BufferKey(");
                push_decimal(&mut out, k.0);
                push_str(&mut out, ")");
                push_str(&mut out, " already exists. Fix: evict it before reinserting.");
                proof {
                    reveal_strlit("buffer key BufferKey(");
                    reveal_strlit("buffer key ");
                    reveal_strlit("BufferKey(");
                    assert(out@ =~= error_text(*self));
                }
            },
            TierError::MissingKey(k) => {
                push_str(&mut out, "buffer key BufferKey(");
                push_decimal(&mut out, k.0);
                push_str(&mut out, ")");
                push_str(&mut out, " is missing. Fix: insert it first.");
                proof {
                    reveal_strlit("buffer key BufferKey(");
                    reveal_strlit("buffer key ");
                    reveal_strlit("BufferKey(");
                    assert(out@ =~= error_text(*self));
                }
            },
            TierError::CapacityExceeded { requested, available } => {
                push_str(&mut out, "capacity exceeded: requested ");
                push_decimal(&mut out, *requested as u64);
                push_str(&mut out, " bytes, available ");
                push_decimal(&mut out, *available as u64);
                push_str(&mut out, ". Fix: increase tier capacity or evict colder buffers.");
                proof {
                    assert(out@ =~= error_text(*self));
                }
            },
            TierError::InvalidInput(message) => {
                let m = string_chars(message);
                push_chars(&mut out, &m);
                push_str(&mut out, ". Fix: pass a valid value.");
                proof {
                    assert(out@ =~= error_text(*self));
                }
            },
            TierError::Io(error) => {
                let text = error.to_string();
                let m = string_chars(&text);
                push_chars(&mut out, &m);
                push_str(&mut out, ". Fix: verify the profile path and permissions.");
                proof {
                    assert(out@ =~= text@ + io_hint());
                    assert(vstd::string::to_string_from_display_ensures::<std::io::Error>(error, text));
                }
            },
            TierError::Parse(message) => {
                let m = string_chars(message);
                push_chars(&mut out, &m);
                push_str(&mut out, ". Fix: load a valid helix profile JSON.");
                proof {
                    assert(out@ =~= error_text(*self));
                }
            },
        }
        string_from_chars(&out)
    }
}

impl From<std::io::Error> for TierError {
    fn from(value: std::io::Error) -> (res: TierError) {
        TierError::Io(value)
    }
}

impl vstd::std_specs::convert::FromSpecImpl<std::io::Error> for TierError {
    open spec fn obeys_from_spec() -> bool {
        true
    }

    open spec fn from_spec(v: std::io::Error) -> TierError {
        TierError::Io(v)
    }
}

} // verus!
