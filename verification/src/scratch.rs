//! The scratch text in which a number's decimal text is held before it is copied out.

use vstd::prelude::*;
use vstd::utf8::encode_utf8;

verus! {

#[verifier::external_type_specification]
#[verifier::external_body]
pub struct ExHeaplessString<const N: usize>(heapless::String<N>);

/// The characters that a scratch text holds.
pub uninterp spec fn scratch_text(s: heapless::String<41>) -> Seq<char>;

/// `heapless::String::new`: a scratch text starts out empty.
#[verifier::external_body]
pub(crate) fn scratch_new() -> (s: heapless::String<41>)
    ensures
        scratch_text(s) == Seq::<char>::empty(),
{
    heapless::String::new()
}

/// `heapless::String::push_str`: `text` is added behind what is there when the UTF-8 bytes of
/// both together number at most 41; otherwise the call fails and changes nothing.
#[verifier::external_body]
pub(crate) fn scratch_push_str(s: &mut heapless::String<41>, text: &str) -> (r: Result<(), ()>)
    ensures
        r is Ok <==> encode_utf8(scratch_text(*old(s))).len() + encode_utf8(text@).len() <= 41,
        r is Ok ==> scratch_text(*final(s)) == scratch_text(*old(s)) + text@,
        r is Err ==> scratch_text(*final(s)) == scratch_text(*old(s)),
{
    s.push_str(text)
}

/// `heapless::String::as_str`: the text that is held, as a string slice.
#[verifier::external_body]
pub(crate) fn scratch_as_str(s: &heapless::String<41>) -> (r: &str)
    ensures
        r@ == scratch_text(*s),
{
    s.as_str()
}

} // verus!
