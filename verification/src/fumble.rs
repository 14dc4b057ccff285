//! The errors that are reported to whoever sent a request.

use vstd::prelude::*;
use vstd::string::StringExecFns;

verus! {

/// What can be wrong with a request.
#[derive(Debug)]
pub enum Fumble {
    FieldName,
    FieldSize,
    ScalarType,
    ScalarString,
    ScalarBoolean,
    ScalarDecimal,
    ScalarInteger,
    ScalarsCombinedSize,
    Operator,
    Start,
    Action,
    Identifier,
}

impl Fumble {
    /// The sentence that explains this error.
    pub open spec fn message(self) -> Seq<char> {
        match self {
            Fumble::FieldName => "Field name should only contain alphanumeric and underscore. First character shouldn't be capital"@,
            Fumble::FieldSize => "Field name is too long"@,
            Fumble::ScalarType => "Wrong. Only String, integer, decimal and boolean data types expected"@,
            Fumble::ScalarString => "Cannot parse string value"@,
            Fumble::ScalarBoolean => "Cannot parse boolean value"@,
            Fumble::ScalarDecimal => "Cannot parse decimal value"@,
            Fumble::ScalarInteger => "Cannot parse integer value"@,
            Fumble::ScalarsCombinedSize => "Data size limit exceeds"@,
            Fumble::Operator => "Unrecognized operator"@,
            Fumble::Start => "Query should either start with 'create' or 'match'"@,
            Fumble::Action => "'match' should be followed by 'return', 'set' or 'delete'"@,
            Fumble::Identifier => "Cannot set _id"@,
        }
    }

    /// The line that reports this error: a dash, then the sentence.
    pub fn unwrap(&self) -> (line: String)
        ensures
            line@ == "-"@ + self.message(),
    {
        let result: &str = match self {
            Fumble::FieldName => "Field name should only contain alphanumeric and underscore. First character shouldn't be capital",
            Fumble::FieldSize => "Field name is too long",
            Fumble::ScalarType => "Wrong. Only String, integer, decimal and boolean data types expected",
            Fumble::ScalarString => "Cannot parse string value",
            Fumble::ScalarBoolean => "Cannot parse boolean value",
            Fumble::ScalarDecimal => "Cannot parse decimal value",
            Fumble::ScalarInteger => "Cannot parse integer value",
            Fumble::ScalarsCombinedSize => "Data size limit exceeds",
            Fumble::Operator => "Unrecognized operator",
            Fumble::Start => "Query should either start with 'create' or 'match'",
            Fumble::Action => "'match' should be followed by 'return', 'set' or 'delete'",
            Fumble::Identifier => "Cannot set _id",
        };

        let mut fumble = String::from_str("-");
        fumble.append(result);
        fumble
    }
}

} // verus!
