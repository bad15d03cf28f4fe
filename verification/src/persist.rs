use vstd::prelude::*;

use crate::collider::ColliderKind;
use crate::edit::{edit_error_text, EditError};
use crate::narrowphase::{check_registrations, registrations_fit, KindPair};

verus! {

/// The schema every saved world names in its header.
pub const PERSIST_SCHEMA: &'static str = "loam.physics.world";

/// The version of the saved layout that this library reads and writes.
pub const PERSIST_VERSION: u32 = 3;

/// The text encoding of a saved world.
pub const PERSIST_CODEC: &'static str = "ron";

/// Why a world could not be saved or loaded; a refused load leaves the world
/// unchanged. `Decode` and `Encode` carry the codec's own report in words.
#[derive(Clone, Debug, PartialEq, Eq)]
pub enum PersistError {
    Decode(String),
    Encode(String),
    Schema { found: String },
    Version { found: u32 },
    Codec { found: String },
    /// The document was saved under other narrowphase registrations.
    Registrations,
    State(EditError),
}

/// The text of one decimal digit.
pub open spec fn digit_text(d: nat) -> &'static str {
    if d == 0 {
        "0"
    } else if d == 1 {
        "1"
    } else if d == 2 {
        "2"
    } else if d == 3 {
        "3"
    } else if d == 4 {
        "4"
    } else if d == 5 {
        "5"
    } else if d == 6 {
        "6"
    } else if d == 7 {
        "7"
    } else if d == 8 {
        "8"
    } else {
        "9"
    }
}

/// `n` written in decimal, without leading zeros.
pub open spec fn decimal(n: nat) -> Seq<char>
    decreases n,
{
    if n < 10 {
        digit_text(n)@
    } else {
        decimal(n / 10) + digit_text(n % 10)@
    }
}

fn digit(d: u32) -> (r: &'static str)
    requires
        d < 10,
    ensures
        r == digit_text(d as nat),
{
    if d == 0 {
        "0"
    } else if d == 1 {
        "1"
    } else if d == 2 {
        "2"
    } else if d == 3 {
        "3"
    } else if d == 4 {
        "4"
    } else if d == 5 {
        "5"
    } else if d == 6 {
        "6"
    } else if d == 7 {
        "7"
    } else if d == 8 {
        "8"
    } else {
        "9"
    }
}

/// Appends `n` in decimal.
fn append_decimal(s: &mut String, n: u32)
    ensures
        final(s)@ == old(s)@ + decimal(n as nat),
    decreases n,
{
    if n >= 10 {
        append_decimal(s, n / 10);
    }
    s.append(digit(n % 10));
    proof {
        if n >= 10 {
            assert(final(s)@ =~= old(s)@ + decimal(n as nat));
        }
    }
}

/// The refusal in words, as its `Display` writes it.
pub open spec fn persist_error_text(e: PersistError) -> Seq<char> {
    match e {
        PersistError::Decode(report) => "the text is not a loam physics document: "@ + report@,
        PersistError::Encode(report) => "the world could not be encoded: "@ + report@,
        PersistError::Schema { found } => "the schema is "@ + found@ + ", not "@ + PERSIST_SCHEMA@,
        PersistError::Version { found } => "the schema version is "@ + decimal(found as nat) + ", not "@
            + decimal(PERSIST_VERSION as nat),
        PersistError::Codec { found } => "the codec is "@ + found@ + ", not "@ + PERSIST_CODEC@,
        PersistError::Registrations => "the saved world was made under other narrowphase registrations"@,
        PersistError::State(e) => "the saved world state is invalid: "@ + edit_error_text(e)@,
    }
}

impl PersistError {
    /// The refusal in words, as its `Display` writes it.
    pub fn message(&self) -> (r: String)
        ensures
            r@ == persist_error_text(*self),
    {
        match self {
            PersistError::Decode(report) => {
                let mut s = String::from_str("the text is not a loam physics document: ");
                s.append(report.as_str());
                s
            },
            PersistError::Encode(report) => {
                let mut s = String::from_str("the world could not be encoded: ");
                s.append(report.as_str());
                s
            },
            PersistError::Schema { found } => {
                let mut s = String::from_str("the schema is ");
                s.append(found.as_str());
                s.append(", not ");
                s.append(PERSIST_SCHEMA);
                s
            },
            PersistError::Version { found } => {
                let mut s = String::from_str("the schema version is ");
                append_decimal(&mut s, *found);
                s.append(", not ");
                append_decimal(&mut s, PERSIST_VERSION);
                s
            },
            PersistError::Codec { found } => {
                let mut s = String::from_str("the codec is ");
                s.append(found.as_str());
                s.append(", not ");
                s.append(PERSIST_CODEC);
                s
            },
            PersistError::Registrations => {
                String::from_str("the saved world was made under other narrowphase registrations")
            },
            PersistError::State(e) => {
                let mut s = String::from_str("the saved world state is invalid: ");
                s.append(e.message());
                s
            },
        }
    }
}

/// A saved header names this library's schema, version and codec.
pub open spec fn header_accepted(schema: Seq<char>, version: u32, codec: Seq<char>) -> bool {
    &&& schema == PERSIST_SCHEMA@
    &&& version == PERSIST_VERSION
    &&& codec == PERSIST_CODEC@
}

/// Accepts a saved header that names this library's schema, version and
/// codec, and refuses any other, naming what it found: the schema is
/// checked first, then the version, then the codec.
pub fn check_header(schema: String, version: u32, codec: String) -> (r: Result<(), PersistError>)
    ensures
        r is Ok <==> header_accepted(schema@, version, codec@),
        r matches Err(e) ==> match e {
            PersistError::Schema { found } => found@ == schema@ && schema@ != PERSIST_SCHEMA@,
            PersistError::Version { found } => found == version && schema@ == PERSIST_SCHEMA@
                && version != PERSIST_VERSION,
            PersistError::Codec { found } => found@ == codec@ && schema@ == PERSIST_SCHEMA@ && version
                == PERSIST_VERSION && codec@ != PERSIST_CODEC@,
            _ => false,
        },
{
    let expected_schema = String::from_str(PERSIST_SCHEMA);
    if schema != expected_schema {
        return Err(PersistError::Schema { found: schema });
    }
    if version != PERSIST_VERSION {
        return Err(PersistError::Version { found: version });
    }
    let expected_codec = String::from_str(PERSIST_CODEC);
    if codec != expected_codec {
        return Err(PersistError::Codec { found: codec });
    }
    Ok(())
}

/// Refuses a document saved under other narrowphase registrations than the
/// receiving world's: the pair registrations must be the same list, and the
/// field registrations the same kinds.
pub fn check_saved_registrations(
    pairs: &[KindPair],
    fields: &[ColliderKind],
    saved_pairs: &[KindPair],
    saved_fields: &[ColliderKind],
) -> (r: Result<(), PersistError>)
    ensures
        r is Ok <==> registrations_fit(pairs@, fields@, saved_pairs@, saved_fields@),
        r is Err ==> r == Err::<(), PersistError>(PersistError::Registrations),
{
    match check_registrations(pairs, fields, saved_pairs, saved_fields) {
        Ok(()) => Ok(()),
        Err(_) => Err(PersistError::Registrations),
    }
}

} // verus!
