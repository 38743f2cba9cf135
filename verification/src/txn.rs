//! The kinds of operation in a transaction, as they are written on the wire.

use vstd::prelude::*;
use vstd::string::*;

verus! {

/// What one operation of a transaction does to its key.
#[derive(Clone, Copy, Debug, PartialEq, Eq, Structural)]
pub enum OpType {
    /// Reads the value under the key.
    Read,
    /// Writes a value under the key.
    Write,
}

/// The text is not the name of an operation.
#[derive(Clone, Copy, Debug, PartialEq, Eq, Structural)]
pub struct ParseOpTypeError;

/// The name of the read operation.
pub open spec fn read_name() -> Seq<char> {
    seq!['r']
}

/// The name of the write operation.
pub open spec fn write_name() -> Seq<char> {
    seq!['w']
}

impl OpType {
    /// The name of the operation.
    pub open spec fn name(self) -> Seq<char> {
        match self {
            OpType::Read => read_name(),
            OpType::Write => write_name(),
        }
    }

    /// The operation that `s` names: `r` for a read, `w` for a write.
    /// Any other text names none.
    pub fn from_str(s: &str) -> (parsed: Result<OpType, ParseOpTypeError>)
        ensures
            s@ == read_name() ==> parsed == Ok::<OpType, ParseOpTypeError>(OpType::Read),
            s@ == write_name() ==> parsed == Ok::<OpType, ParseOpTypeError>(OpType::Write),
            s@ != read_name() && s@ != write_name() ==> parsed is Err,
    {
        if s.unicode_len() != 1 {
            return Err(ParseOpTypeError);
        }
        let c = s.get_char(0);
        if c == 'r' {
            assert(s@ =~= read_name());
            Ok(OpType::Read)
        } else if c == 'w' {
            assert(s@ =~= write_name());
            Ok(OpType::Write)
        } else {
            Err(ParseOpTypeError)
        }
    }

    /// The name of the operation, as [`OpType::from_str`] reads it.
    pub fn to_string(&self) -> (s: String)
        ensures
            s@ == self.name(),
    {
        proof {
            reveal_strlit("r");
            reveal_strlit("w");
        }
        let s = match self {
            OpType::Read => String::from_str("r"),
            OpType::Write => String::from_str("w"),
        };
        assert(s@ =~= self.name());
        s
    }
}

impl ParseOpTypeError {
    /// What went wrong, in words.
    pub fn to_string(&self) -> (s: String)
        ensures
            s@ == "Operation type error"@,
    {
        String::from_str("Operation type error")
    }
}

/// Reading back the name of an operation gives the operation.
pub proof fn lemma_name_round_trip(op: OpType)
    ensures
        op.name() == read_name() <==> op == OpType::Read,
        op.name() == write_name() <==> op == OpType::Write,
{
    assert(read_name()[0] != write_name()[0]);
}

} // verus!
