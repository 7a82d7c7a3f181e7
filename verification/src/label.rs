//! Labels: the values that the nodes of a tree carry.
use crate::error::ParseError;
use vstd::prelude::*;
use vstd::slice::slice_to_vec;
use vstd::utf8::{decode_utf8, encode_utf8, encode_utf8_decode_utf8, valid_utf8};

verus! {

/// A label wraps one value. The value is read as a whole and replaced as a
/// whole; it is never changed in part.
pub trait Label {
    /// The type of the wrapped value.
    type LabelType;

    /// The value that the label holds.
    spec fn spec_label(&self) -> Self::LabelType;

    /// Returns the held value.
    fn get_label(&self) -> (value: &Self::LabelType)
        ensures
            *value == self.spec_label(),
    ;

    /// Wraps `label`.
    fn new(label: Self::LabelType) -> (made: Self) where Self: Sized
        ensures
            made.spec_label() == label,
    ;

    /// Replaces the held value by `new_label`.
    fn set_label(&mut self, new_label: Self::LabelType)
        ensures
            final(self).spec_label() == new_label,
    ;
}

/// A label that holds text. Its view is the text as a sequence of characters.
#[derive(Clone, Debug, Eq, Hash)]
pub struct StringLabel(String);

impl View for StringLabel {
    type V = Seq<char>;

    closed spec fn view(&self) -> Seq<char> {
        self.0@
    }
}

impl Label for StringLabel {
    type LabelType = String;

    closed spec fn spec_label(&self) -> String {
        self.0
    }

    fn get_label(&self) -> (value: &String)
        ensures
            value@ == self@,
    {
        &self.0
    }

    fn new(label: String) -> (made: Self)
        ensures
            made@ == label@,
    {
        StringLabel(label)
    }

    fn set_label(&mut self, new_label: String)
        ensures
            final(self)@ == new_label@,
    {
        self.0 = new_label;
    }
}

/// The error of `String::from_utf8` of std. Nothing is read from it.
#[verifier::external_type_specification]
#[verifier::external_body]
pub struct ExFromUtf8Error(std::string::FromUtf8Error);

/// `String::from_utf8` of std: it succeeds exactly on the vectors that hold
/// valid UTF-8, and the string it then returns is made of the bytes of the
/// vector.
pub assume_specification[ String::from_utf8 ](vec: Vec<u8>) -> (decoded: Result<
    String,
    std::string::FromUtf8Error,
>)
    ensures
        decoded is Ok <==> valid_utf8(vec@),
        decoded matches Ok(text) ==> encode_utf8(text@) == vec@,
;

impl StringLabel {
    /// Decodes `bytes` as UTF-8 into a label. Bytes that are not valid UTF-8
    /// give `InvalidEncoding`.
    pub fn from_bytes(bytes: &[u8]) -> (made: Result<StringLabel, ParseError>)
        ensures
            valid_utf8(bytes@) ==> made is Ok && made->Ok_0@ == decode_utf8(bytes@),
            !valid_utf8(bytes@) ==> made == Err::<StringLabel, ParseError>(
                ParseError::InvalidEncoding,
            ),
    {
        match String::from_utf8(slice_to_vec(bytes)) {
            Ok(text) => {
                proof {
                    encode_utf8_decode_utf8(text@);
                }
                Ok(StringLabel(text))
            },
            Err(_) => Err(ParseError::InvalidEncoding),
        }
    }

    /// The text of the label, as a new string.
    pub fn to_string(&self) -> (text: String)
        ensures
            text@ == self@,
    {
        self.0.clone()
    }
}

impl PartialEq for StringLabel {
    fn eq(&self, other: &Self) -> (equal: bool) {
        self.0 == other.0
    }
}

impl vstd::std_specs::cmp::PartialEqSpecImpl for StringLabel {
    open spec fn obeys_eq_spec() -> bool {
        true
    }

    open spec fn eq_spec(&self, other: &Self) -> bool {
        self@ == other@
    }
}

} // verus!
