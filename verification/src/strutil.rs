//! Small helpers on byte and character sequences: slicing a byte run out of a
//! buffer and turning ASCII bytes into text.

use vstd::prelude::*;

verus! {

/// The characters that the bytes of `s` stand for, one character per byte.
pub open spec fn spec_ascii_chars(s: Seq<u8>) -> Seq<char> {
    Seq::new(s.len(), |i: int| s[i] as char)
}

/// Copies `len` bytes starting at `off` out of `data`.
pub fn bytes_at(data: &[u8], off: usize, len: usize) -> (r: Vec<u8>)
    requires
        off + len <= data@.len(),
    ensures
        r@ == data@.subrange(off as int, off + len),
{
    let n = data.len();
    let mut out: Vec<u8> = Vec::new();
    let mut i: usize = 0;
    while i < len
        invariant
            i <= len,
            off + len <= n == data@.len(),
            out@ == data@.subrange(off as int, off + i),
        decreases len - i,
    {
        out.push(data[off + i]);
        assert(out@ == data@.subrange(off as int, off + i + 1));
        i = i + 1;
    }
    out
}

/// Relies on `String::push`: appends the given character to the end of the
/// string.
#[verifier::external_body]
fn push_char(s: &mut String, c: char)
    ensures
        final(s)@ == old(s)@.push(c),
{
    s.push(c);
}

/// Builds the text whose characters are the bytes of `b`, one character per
/// byte.
pub fn ascii_string(b: &Vec<u8>) -> (r: String)
    ensures
        r@ == spec_ascii_chars(b@),
{
    let mut s = String::new();
    let mut i: usize = 0;
    while i < b.len()
        invariant
            i <= b@.len(),
            s@ == spec_ascii_chars(b@.subrange(0, i as int)),
        decreases b@.len() - i,
    {
        let c = b[i] as char;
        push_char(&mut s, c);
        assert(s@ =~= spec_ascii_chars(b@.subrange(0, i + 1)));
        i = i + 1;
    }
    assert(b@.subrange(0, b@.len() as int) == b@);
    s
}

} // verus!
