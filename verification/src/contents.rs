//! A byte buffer with its two projections: the raw bytes, and the text they
//! encode in UTF-8.
use vstd::prelude::*;
use vstd::utf8::{decode_utf8, valid_utf8};

verus! {

/// `FromUtf8Error` of std: what `String::from_utf8` answers for bytes that
/// are not text. Nothing is read of it.
#[verifier::external_type_specification]
#[verifier::external_body]
pub struct ExFromUtf8Error(std::string::FromUtf8Error);

/// `String::from_utf8` of std: the text is returned exactly when the bytes
/// are well-formed UTF-8, and it is then the text that they encode.
#[verifier::external_body]
pub(crate) fn string_from_utf8(bytes: Vec<u8>) -> (res: Result<String, std::string::FromUtf8Error>)
    ensures
        res is Ok <==> valid_utf8(bytes@),
        res matches Ok(text) ==> text@ == decode_utf8(bytes@),
{
    String::from_utf8(bytes)
}

/// A container for byte data.
pub struct Contents {
    data: Vec<u8>,
}

impl View for Contents {
    type V = Seq<u8>;

    closed spec fn view(&self) -> Seq<u8> {
        self.data@
    }
}

impl Contents {
    /// Wraps the bytes, unchanged.
    pub fn new(data: Vec<u8>) -> (contents: Self)
        ensures
            contents@ == data@,
    {
        Contents { data }
    }

    /// The raw bytes, unchanged.
    pub fn into_bytes(self) -> (data: Vec<u8>)
        ensures
            data@ == self@,
    {
        self.data
    }

    /// The text that the bytes encode, or `None` where they are not
    /// well-formed UTF-8.
    pub fn into_text(self) -> (text: Option<String>)
        ensures
            text is Some <==> valid_utf8(self@),
            text matches Some(t) ==> t@ == decode_utf8(self@),
    {
        match string_from_utf8(self.data) {
            Ok(t) => Some(t),
            Err(_) => None,
        }
    }
}

impl From<Vec<u8>> for Contents {
    fn from(data: Vec<u8>) -> (contents: Self)
        ensures
            contents@ == data@,
    {
        Contents { data }
    }
}

impl vstd::std_specs::convert::FromSpecImpl<Vec<u8>> for Contents {
    open spec fn obeys_from_spec() -> bool {
        false
    }

    open spec fn from_spec(data: Vec<u8>) -> Self {
        arbitrary()
    }
}

impl From<Contents> for Vec<u8> {
    fn from(contents: Contents) -> (data: Self)
        ensures
            data@ == contents@,
    {
        contents.data
    }
}

impl vstd::std_specs::convert::FromSpecImpl<Contents> for Vec<u8> {
    open spec fn obeys_from_spec() -> bool {
        false
    }

    open spec fn from_spec(contents: Contents) -> Self {
        arbitrary()
    }
}

impl TryFrom<Contents> for String {
    type Error = std::string::FromUtf8Error;

    fn try_from(contents: Contents) -> (res: Result<Self, Self::Error>)
        ensures
            res is Ok <==> valid_utf8(contents@),
            res matches Ok(text) ==> text@ == decode_utf8(contents@),
    {
        string_from_utf8(contents.data)
    }
}

impl vstd::std_specs::convert::TryFromSpecImpl<Contents> for String {
    open spec fn obeys_try_from_spec() -> bool {
        false
    }

    open spec fn try_from_spec(contents: Contents) -> Result<Self, Self::Error> {
        arbitrary()
    }
}

} // verus!
