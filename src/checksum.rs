use vstd::prelude::*;

verus! {

#[verifier::external_type_specification]
#[verifier::external_body]
pub struct ExMd5Context(md5::Context);

/// The bytes that an MD5 context has consumed since it was created.
pub uninterp spec fn md5_consumed(c: md5::Context) -> Seq<u8>;

/// The MD5 digest of `data`, written as 32 lowercase hexadecimal digits.
pub uninterp spec fn md5_hex_of(data: Seq<u8>) -> Seq<char>;

/// Relies on md5::Context::new: a fresh context has consumed nothing.
#[verifier::external_body]
fn md5_context_new() -> (r: md5::Context)
    ensures
        md5_consumed(r) == Seq::<u8>::empty(),
{
    md5::Context::new()
}

/// Relies on md5::Context::consume: the context goes on to consume `data`.
#[verifier::external_body]
fn md5_consume(c: &mut md5::Context, data: &[u8])
    ensures
        md5_consumed(*final(c)) == md5_consumed(*old(c)) + data@,
{
    c.consume(data)
}

/// Relies on md5::Context::compute and the `LowerHex` format of md5::Digest:
/// the digest of what was consumed, two lowercase hex digits per byte of it.
#[verifier::external_body]
fn md5_hex(c: md5::Context) -> (r: String)
    ensures
        r@ == md5_hex_of(md5_consumed(c)),
        r@.len() == 32,
{
    format!("{:x}", c.compute())
}

/// Whether a computed digest is the expected one, character for character.
pub fn digest_matches(computed: &str, expected: &str) -> (r: bool)
    ensures
        r == (computed@ == expected@),
{
    let a = computed.to_owned();
    let b = expected.to_owned();
    a == b
}

/// Feeds every byte that is written through it into a running MD5 digest.
pub struct Md5ConsumerWriter {
    md5_context: md5::Context,
}

impl Md5ConsumerWriter {
    /// The bytes written so far.
    pub closed spec fn consumed(&self) -> Seq<u8> {
        md5_consumed(self.md5_context)
    }

    pub fn new() -> (r: Self)
        ensures
            r.consumed() == Seq::<u8>::empty(),
    {
        Md5ConsumerWriter { md5_context: md5_context_new() }
    }

    /// Digests `buf` and reports how many bytes were taken: all of them.
    pub fn write(&mut self, buf: &[u8]) -> (r: usize)
        ensures
            final(self).consumed() == old(self).consumed() + buf@,
            r == buf@.len(),
    {
        md5_consume(&mut self.md5_context, buf);
        buf.len()
    }

    /// The digest of every byte written, as lowercase hexadecimal.
    pub fn hex_digest(self) -> (r: String)
        ensures
            r@ == md5_hex_of(self.consumed()),
    {
        md5_hex(self.md5_context)
    }

    /// Whether the digest of every byte written is `expected_md5sum`.
    pub fn digest(self, expected_md5sum: &str) -> (r: bool)
        ensures
            r == (md5_hex_of(self.consumed()) == expected_md5sum@),
    {
        let md5sum = self.hex_digest();
        digest_matches(md5sum.as_str(), expected_md5sum)
    }
}

} // verus!
