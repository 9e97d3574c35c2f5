//! The Perspective Broker profile: opcodes layered on Banana through one
//! reserved delimiter.
use vstd::prelude::*;
use vstd::slice::slice_subrange;
use vstd::string::StringExecFns;

use crate::banana::{Element, Profile};
use crate::error::{DecodeError, ErrorKind};

verus! {

/// Elements of the Perspective Broker protocol.
pub type PerspectiveBroker = Element<PB>;

/// The delimiter that the Perspective Broker profile claims.
pub const PB_TYPE: u8 = 0x87;

/// A Perspective Broker opcode. Each is written as its number, from 0x01 to
/// 0x1f in the order below, followed by [`PB_TYPE`].
#[derive(Debug, PartialEq, Eq, Clone, Copy)]
pub enum PB {
    /// Python's `None`.
    NoneValue,
    Class,
    DeReference,
    Reference,
    Dictionary,
    Function,
    Instance,
    List,
    Module,
    Persistent,
    Tuple,
    UnPersistable,
    Copy,
    Cache,
    Cached,
    Remote,
    Local,
    LCache,
    Version,
    Login,
    Password,
    Challenge,
    LoggedIn,
    NotLoggedIn,
    CacheMessage,
    Message,
    Answer,
    Error,
    DecRef,
    DeCache,
    UnCache,
}

/// Hexadecimal digit `n`, in lower case.
pub open spec fn hex_digit(n: u8) -> char {
    "0123456789abcdef"@[n as int]
}

/// `b` in hexadecimal, lower case, without leading zeros.
pub open spec fn hex_text(b: u8) -> Seq<char> {
    if b < 16 {
        seq![hex_digit(b)]
    } else {
        seq![hex_digit(b / 16), hex_digit(b % 16)]
    }
}

/// Message of the error on a PB delimiter without exactly one byte before it.
pub open spec fn pb_preamble_message() -> Seq<char> {
    "PB element type 0x87 must be prefixed by exactly one byte"@
}

/// Message of the error on a byte that numbers no opcode.
pub open spec fn unknown_opcode_message(b: u8) -> Seq<char> {
    "Unknown PB short identifier 0x"@ + hex_text(b)
}

impl PB {
    /// The opcode's number.
    pub open spec fn spec_code(self) -> u8 {
        match self {
            PB::NoneValue => 0x01,
            PB::Class => 0x02,
            PB::DeReference => 0x03,
            PB::Reference => 0x04,
            PB::Dictionary => 0x05,
            PB::Function => 0x06,
            PB::Instance => 0x07,
            PB::List => 0x08,
            PB::Module => 0x09,
            PB::Persistent => 0x0a,
            PB::Tuple => 0x0b,
            PB::UnPersistable => 0x0c,
            PB::Copy => 0x0d,
            PB::Cache => 0x0e,
            PB::Cached => 0x0f,
            PB::Remote => 0x10,
            PB::Local => 0x11,
            PB::LCache => 0x12,
            PB::Version => 0x13,
            PB::Login => 0x14,
            PB::Password => 0x15,
            PB::Challenge => 0x16,
            PB::LoggedIn => 0x17,
            PB::NotLoggedIn => 0x18,
            PB::CacheMessage => 0x19,
            PB::Message => 0x1a,
            PB::Answer => 0x1b,
            PB::Error => 0x1c,
            PB::DecRef => 0x1d,
            PB::DeCache => 0x1e,
            PB::UnCache => 0x1f,
        }
    }

    /// The opcode numbered `b`, if there is one.
    pub open spec fn spec_from_code(b: u8) -> Option<PB> {
        match b {
            0x01 => Some(PB::NoneValue),
            0x02 => Some(PB::Class),
            0x03 => Some(PB::DeReference),
            0x04 => Some(PB::Reference),
            0x05 => Some(PB::Dictionary),
            0x06 => Some(PB::Function),
            0x07 => Some(PB::Instance),
            0x08 => Some(PB::List),
            0x09 => Some(PB::Module),
            0x0a => Some(PB::Persistent),
            0x0b => Some(PB::Tuple),
            0x0c => Some(PB::UnPersistable),
            0x0d => Some(PB::Copy),
            0x0e => Some(PB::Cache),
            0x0f => Some(PB::Cached),
            0x10 => Some(PB::Remote),
            0x11 => Some(PB::Local),
            0x12 => Some(PB::LCache),
            0x13 => Some(PB::Version),
            0x14 => Some(PB::Login),
            0x15 => Some(PB::Password),
            0x16 => Some(PB::Challenge),
            0x17 => Some(PB::LoggedIn),
            0x18 => Some(PB::NotLoggedIn),
            0x19 => Some(PB::CacheMessage),
            0x1a => Some(PB::Message),
            0x1b => Some(PB::Answer),
            0x1c => Some(PB::Error),
            0x1d => Some(PB::DecRef),
            0x1e => Some(PB::DeCache),
            0x1f => Some(PB::UnCache),
            _ => None,
        }
    }
}

/// The one-character string of hexadecimal digit `n`.
fn hex_digit_str(n: u8) -> (r: &'static str)
    requires
        n < 16,
    ensures
        r@ == seq![hex_digit(n)],
{
    proof {
        reveal_strlit("0123456789abcdef");
    }
    match n {
        0 => {
            proof {
                reveal_strlit("0");
            }
            "0"
        },
        1 => {
            proof {
                reveal_strlit("1");
            }
            "1"
        },
        2 => {
            proof {
                reveal_strlit("2");
            }
            "2"
        },
        3 => {
            proof {
                reveal_strlit("3");
            }
            "3"
        },
        4 => {
            proof {
                reveal_strlit("4");
            }
            "4"
        },
        5 => {
            proof {
                reveal_strlit("5");
            }
            "5"
        },
        6 => {
            proof {
                reveal_strlit("6");
            }
            "6"
        },
        7 => {
            proof {
                reveal_strlit("7");
            }
            "7"
        },
        8 => {
            proof {
                reveal_strlit("8");
            }
            "8"
        },
        9 => {
            proof {
                reveal_strlit("9");
            }
            "9"
        },
        10 => {
            proof {
                reveal_strlit("a");
            }
            "a"
        },
        11 => {
            proof {
                reveal_strlit("b");
            }
            "b"
        },
        12 => {
            proof {
                reveal_strlit("c");
            }
            "c"
        },
        13 => {
            proof {
                reveal_strlit("d");
            }
            "d"
        },
        14 => {
            proof {
                reveal_strlit("e");
            }
            "e"
        },
        _ => {
            proof {
                reveal_strlit("f");
            }
            "f"
        },
    }
}

impl Profile for PB {
    open spec fn spec_decode(delimiter: u8, preamble: Seq<u8>, full: Seq<u8>) -> Result<
        (PB, nat),
        ErrorKind,
    > {
        if delimiter != PB_TYPE {
            Err(ErrorKind::UnknownType(delimiter))
        } else if preamble.len() != 1 {
            Err(ErrorKind::Invalid(pb_preamble_message()))
        } else {
            match PB::spec_from_code(preamble[0]) {
                Some(x) => Ok((x, 2)),
                None => Err(ErrorKind::Invalid(unknown_opcode_message(preamble[0]))),
            }
        }
    }

    open spec fn spec_encode(&self) -> Seq<u8> {
        seq![self.spec_code(), PB_TYPE]
    }

    fn decode<'a>(delimiter: u8, preamble: &'a [u8], full_msg: &'a [u8]) -> (r: Result<
        (Self, &'a [u8]),
        DecodeError,
    >) {
        if delimiter != PB_TYPE {
            return Err(DecodeError::UnknownType(delimiter));
        }
        if preamble.len() != 1 {
            return Err(
                DecodeError::Invalid(
                    "PB element type 0x87 must be prefixed by exactly one byte".to_owned(),
                ),
            );
        }
        let op = match preamble[0] {
            0x01 => PB::NoneValue,
            0x02 => PB::Class,
            0x03 => PB::DeReference,
            0x04 => PB::Reference,
            0x05 => PB::Dictionary,
            0x06 => PB::Function,
            0x07 => PB::Instance,
            0x08 => PB::List,
            0x09 => PB::Module,
            0x0a => PB::Persistent,
            0x0b => PB::Tuple,
            0x0c => PB::UnPersistable,
            0x0d => PB::Copy,
            0x0e => PB::Cache,
            0x0f => PB::Cached,
            0x10 => PB::Remote,
            0x11 => PB::Local,
            0x12 => PB::LCache,
            0x13 => PB::Version,
            0x14 => PB::Login,
            0x15 => PB::Password,
            0x16 => PB::Challenge,
            0x17 => PB::LoggedIn,
            0x18 => PB::NotLoggedIn,
            0x19 => PB::CacheMessage,
            0x1a => PB::Message,
            0x1b => PB::Answer,
            0x1c => PB::Error,
            0x1d => PB::DecRef,
            0x1e => PB::DeCache,
            0x1f => PB::UnCache,
            other => {
                let mut msg = "Unknown PB short identifier 0x".to_owned();
                if other >= 16 {
                    msg.append(hex_digit_str(other / 16));
                }
                msg.append(hex_digit_str(other % 16));
                assert(msg@ =~= unknown_opcode_message(other));
                return Err(DecodeError::Invalid(msg));
            },
        };
        Ok((op, slice_subrange(full_msg, 2, full_msg.len())))
    }

    fn encode(&self, v: &mut Vec<u8>) {
        v.push(
            match *self {
                PB::NoneValue => 0x01,
                PB::Class => 0x02,
                PB::DeReference => 0x03,
                PB::Reference => 0x04,
                PB::Dictionary => 0x05,
                PB::Function => 0x06,
                PB::Instance => 0x07,
                PB::List => 0x08,
                PB::Module => 0x09,
                PB::Persistent => 0x0a,
                PB::Tuple => 0x0b,
                PB::UnPersistable => 0x0c,
                PB::Copy => 0x0d,
                PB::Cache => 0x0e,
                PB::Cached => 0x0f,
                PB::Remote => 0x10,
                PB::Local => 0x11,
                PB::LCache => 0x12,
                PB::Version => 0x13,
                PB::Login => 0x14,
                PB::Password => 0x15,
                PB::Challenge => 0x16,
                PB::LoggedIn => 0x17,
                PB::NotLoggedIn => 0x18,
                PB::CacheMessage => 0x19,
                PB::Message => 0x1a,
                PB::Answer => 0x1b,
                PB::Error => 0x1c,
                PB::DecRef => 0x1d,
                PB::DeCache => 0x1e,
                PB::UnCache => 0x1f,
            },
        );
        v.push(PB_TYPE);
    }
}

} // verus!
