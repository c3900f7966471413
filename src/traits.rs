//! Values that can be written in RESP form.
use vstd::prelude::*;
use vstd::utf8::{encode_utf8, valid_utf8};

verus! {

/// A value with a RESP encoding.
pub trait RedisEncodable {
    /// The bytes this value is written as.
    spec fn encoding(&self) -> Seq<u8>;

    /// The encoding as text: a string whose UTF-8 bytes are exactly the
    /// encoding when that is valid UTF-8, the empty string otherwise.
    fn redis_encode(&self) -> (r: String)
        ensures
            valid_utf8(self.encoding()) ==> encode_utf8(r@) == self.encoding(),
            !valid_utf8(self.encoding()) ==> r@.len() == 0,
    ;
}

} // verus!
