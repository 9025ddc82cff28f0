//! Input devices as the rest of the program names them: a device file and the
//! name the device reports.

use std::path::PathBuf;
use std::str::Utf8Error;
use vstd::prelude::*;
use vstd::string::StringSliceAdditionalSpecFns;
use vstd::utf8::{
    encode_utf8, is_char_boundary, is_char_boundary_iff_not_is_continuation_byte,
    is_char_boundary_start_end_of_seq, valid_utf8,
};

verus! {

#[verifier::external_type_specification]
#[verifier::external_body]
pub struct ExPathBuf(PathBuf);

#[verifier::external_type_specification]
#[verifier::external_body]
pub struct ExIoError(std::io::Error);

#[verifier::external_type_specification]
#[verifier::external_body]
pub struct ExUtf8Error(Utf8Error);

/// An input device: the path of its device file and its reported name.
pub struct Device {
    pub dev_path: PathBuf,
    pub name: String,
}

/// Why a device could not be listed or opened.
#[derive(Debug)]
pub enum Error {
    /// Reading the device or its directory failed.
    IOError(std::io::Error),
    /// The name the device reports is not UTF-8.
    Utf8Error(Utf8Error),
}

/// The bytes without the NUL bytes that pad their end.
pub open spec fn without_trailing_nuls(bytes: Seq<u8>) -> Seq<u8>
    decreases bytes.len(),
{
    if bytes.len() > 0 && bytes.last() == 0 {
        without_trailing_nuls(bytes.drop_last())
    } else {
        bytes
    }
}

/// Relies on `std::str::from_utf8`: the bytes are accepted exactly when they
/// are well-formed UTF-8, and the text then has exactly those bytes.
#[verifier::external_body]
fn utf8_text(bytes: &[u8]) -> (r: Result<&str, Utf8Error>)
    ensures
        r is Ok <==> valid_utf8(bytes@),
        r matches Ok(text) ==> text.spec_bytes() == bytes@,
{
    std::str::from_utf8(bytes)
}

impl Device {
    /// The device at `dev_path` whose reported name is `name_bytes`: UTF-8
    /// text, padded at its end with NUL bytes that are not part of the name.
    pub fn from_name_bytes(dev_path: PathBuf, name_bytes: &[u8]) -> (r: Result<Device, Error>)
        ensures
            r is Ok <==> valid_utf8(name_bytes@),
            r matches Err(e) ==> e is Utf8Error,
            r matches Ok(d) ==> d.dev_path == dev_path && encode_utf8(d.name@)
                == without_trailing_nuls(name_bytes@),
    {
        let text = match utf8_text(name_bytes) {
            Ok(text) => text,
            Err(e) => return Err(Error::Utf8Error(e)),
        };
        let bytes = text.as_bytes();
        let mut end: usize = bytes.len();
        assert(bytes@.subrange(0, bytes@.len() as int) =~= bytes@);
        while end > 0 && bytes[end - 1] == 0
            invariant
                end <= bytes@.len(),
                bytes@ == name_bytes@,
                without_trailing_nuls(bytes@.subrange(0, end as int)) == without_trailing_nuls(
                    bytes@,
                ),
                forall|j: int| end <= j < bytes@.len() ==> bytes@[j] == 0,
            decreases end,
        {
            assert(bytes@.subrange(0, end as int).drop_last() =~= bytes@.subrange(
                0,
                end - 1,
            ));
            end -= 1;
        }
        proof {
            is_char_boundary_start_end_of_seq(bytes@);
            if end < bytes@.len() {
                is_char_boundary_iff_not_is_continuation_byte(bytes@, end as int);
            }
        }
        assert(is_char_boundary(text.spec_bytes(), end as int));
        let (head, _) = text.split_at(end);
        Ok(Device { dev_path, name: head.to_owned() })
    }
}

} // verus!
