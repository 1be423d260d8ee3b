//! The special three-byte sequences of the escaped log format.

use vstd::prelude::*;

verus! {

/// The field separator byte of the escaped log format.
pub const FIELD_SEPARATOR: u8 = 0x1F;

/// The escape byte of the escaped log format.
pub const ESCAPE_CHARACTER: u8 = 0x1B;

/// A three-byte sequence with a meaning of its own in the escaped log format.
#[derive(Debug, Clone, Copy, PartialEq, Eq, Structural)]
pub enum SpecialSequence {
    /// Field separator, field separator, escape: the end of a record.
    RecordSeparator,
    /// Escape, field separator, escape: a literal field separator.
    LiteralFieldSeparator,
    /// Escape, escape, escape: a literal escape byte.
    LiteralEscape,
}

/// The special sequence that `b` spells, if any.
pub open spec fn special_of(b: Seq<u8>) -> Option<SpecialSequence> {
    if b == seq![FIELD_SEPARATOR, FIELD_SEPARATOR, ESCAPE_CHARACTER] {
        Some(SpecialSequence::RecordSeparator)
    } else if b == seq![ESCAPE_CHARACTER, FIELD_SEPARATOR, ESCAPE_CHARACTER] {
        Some(SpecialSequence::LiteralFieldSeparator)
    } else if b == seq![ESCAPE_CHARACTER, ESCAPE_CHARACTER, ESCAPE_CHARACTER] {
        Some(SpecialSequence::LiteralEscape)
    } else {
        None
    }
}

/// Recognises a special sequence.
pub fn validate_special(buf: &[u8]) -> (r: Option<SpecialSequence>)
    ensures
        r == special_of(buf@),
{
    if buf.len() != 3 {
        return None;
    }
    let (a, b, c) = (buf[0], buf[1], buf[2]);
    assert(buf@ =~= seq![a, b, c]);
    if c != ESCAPE_CHARACTER {
        return None;
    }
    if a == FIELD_SEPARATOR && b == FIELD_SEPARATOR {
        Some(SpecialSequence::RecordSeparator)
    } else if a == ESCAPE_CHARACTER && b == FIELD_SEPARATOR {
        Some(SpecialSequence::LiteralFieldSeparator)
    } else if a == ESCAPE_CHARACTER && b == ESCAPE_CHARACTER {
        Some(SpecialSequence::LiteralEscape)
    } else {
        proof {
            assert(buf@ != seq![FIELD_SEPARATOR, FIELD_SEPARATOR, ESCAPE_CHARACTER]) by {
                if buf@ == seq![FIELD_SEPARATOR, FIELD_SEPARATOR, ESCAPE_CHARACTER] {
                    assert(buf@[0] == FIELD_SEPARATOR && buf@[1] == FIELD_SEPARATOR);
                }
            }
            assert(buf@ != seq![ESCAPE_CHARACTER, FIELD_SEPARATOR, ESCAPE_CHARACTER]) by {
                if buf@ == seq![ESCAPE_CHARACTER, FIELD_SEPARATOR, ESCAPE_CHARACTER] {
                    assert(buf@[0] == ESCAPE_CHARACTER && buf@[1] == FIELD_SEPARATOR);
                }
            }
            assert(buf@ != seq![ESCAPE_CHARACTER, ESCAPE_CHARACTER, ESCAPE_CHARACTER]) by {
                if buf@ == seq![ESCAPE_CHARACTER, ESCAPE_CHARACTER, ESCAPE_CHARACTER] {
                    assert(buf@[0] == ESCAPE_CHARACTER && buf@[1] == ESCAPE_CHARACTER);
                }
            }
        }
        None
    }
}

} // verus!
