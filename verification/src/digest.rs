//! Content digests: 128-bit MD5 values written as 32 lowercase hex characters.
//!
//! The hash itself is computed by the `md5` crate. What this module takes on
//! trust about that crate is spelled out on the items marked as trusted; the
//! rest (the text form of a digest, its length, its alphabet) is proved.

use vstd::prelude::*;

verus! {

/// The lowercase hexadecimal digit for a value below sixteen.
pub open spec fn hex_char(nibble: nat) -> char
    recommends
        nibble < 16,
{
    if nibble < 10 {
        crate::utils::text::digit_char(nibble)
    } else if nibble == 10 {
        'a'
    } else if nibble == 11 {
        'b'
    } else if nibble == 12 {
        'c'
    } else if nibble == 13 {
        'd'
    } else if nibble == 14 {
        'e'
    } else {
        'f'
    }
}

/// Whether `c` is one of `0`-`9`, `a`-`f`.
pub open spec fn is_hex_char(c: char) -> bool {
    ('0' <= c && c <= '9') || ('a' <= c && c <= 'f')
}

/// Two lowercase hex characters per byte, high nibble first.
pub open spec fn lower_hex(bytes: Seq<u8>) -> Seq<char>
    decreases bytes.len(),
{
    if bytes.len() == 0 {
        Seq::empty()
    } else {
        lower_hex(bytes.drop_last()).push(hex_char((bytes.last() / 16) as nat)).push(
            hex_char((bytes.last() % 16) as nat),
        )
    }
}

/// The wire form of a digest: exactly 32 lowercase hex characters.
pub open spec fn is_digest(text: Seq<char>) -> bool {
    &&& text.len() == 32
    &&& forall|i: int| 0 <= i < text.len() ==> is_hex_char(#[trigger] text[i])
}

/// The bytes that a directory's digest is taken over: the UTF-8 bytes of the
/// given digests, one after another.
pub open spec fn digest_input(digests: Seq<Seq<char>>) -> Seq<u8>
    decreases digests.len(),
{
    if digests.len() == 0 {
        Seq::empty()
    } else {
        digest_input(digests.drop_last()) + vstd::utf8::encode_utf8(digests.last())
    }
}

/// The hex form has two characters per byte, all of them lowercase hex digits.
pub proof fn lemma_lower_hex_shape(bytes: Seq<u8>)
    ensures
        lower_hex(bytes).len() == 2 * bytes.len(),
        forall|i: int| 0 <= i < lower_hex(bytes).len() ==> is_hex_char(#[trigger] lower_hex(bytes)[i]),
    decreases bytes.len(),
{
    if bytes.len() > 0 {
        lemma_lower_hex_shape(bytes.drop_last());
        let hi = (bytes.last() / 16) as nat;
        let lo = (bytes.last() % 16) as nat;
        assert(hi < 16 && lo < 16);
        assert(is_hex_char(hex_char(hi)));
        assert(is_hex_char(hex_char(lo)));
    }
}

/// Trusted: makes `md5::Context` known to the verifier as an opaque type.
#[verifier::external_type_specification]
#[verifier::external_body]
pub struct ExContext(md5::Context);

/// Trusted: the bytes that have been fed to an `md5::Context` since it was
/// created, in the order in which they were fed.
pub uninterp spec fn consumed(ctx: md5::Context) -> Seq<u8>;

/// Trusted: the sixteen bytes that `md5::Context::compute` returns once
/// exactly `data` has been consumed, that is the MD5 hash of `data`.
pub uninterp spec fn md5_digest(data: Seq<u8>) -> Seq<u8>;

/// Trusted: `md5::Context::new` starts a context that has consumed nothing.
#[verifier::external_body]
fn context_new() -> (ctx: md5::Context)
    ensures
        consumed(ctx) == Seq::<u8>::empty(),
{
    md5::Context::new()
}

/// Trusted: `md5::Context::consume` feeds `data` after what was fed before;
/// the state it leaves depends on the whole byte stream only, not on how the
/// stream was cut into calls.
#[verifier::external_body]
fn context_consume(ctx: &mut md5::Context, data: &[u8])
    ensures
        consumed(*final(ctx)) == consumed(*old(ctx)) + data@,
{
    ctx.consume(data)
}

/// Trusted: `md5::Context::compute` returns the sixteen bytes of a `Digest`
/// that depend on the consumed bytes alone.
#[verifier::external_body]
fn context_compute(ctx: md5::Context) -> (digest: [u8; 16])
    ensures
        digest@ == md5_digest(consumed(ctx)),
{
    ctx.compute().0
}

/// Trusted: the `md5` crate's `LowerHex` impl for `Digest` writes each of
/// the sixteen bytes as two lowercase hex digits, high nibble first.
#[verifier::external_body]
fn digest_hex(digest: &[u8; 16]) -> (hex: String)
    ensures
        hex@ == lower_hex(digest@),
{
    format!("{:x}", md5::Digest(*digest))
}

/// A running digest over a stream of bytes.
pub struct Hasher {
    ctx: md5::Context,
}

impl View for Hasher {
    type V = Seq<u8>;

    /// Every byte consumed so far, in order.
    closed spec fn view(&self) -> Seq<u8> {
        consumed(self.ctx)
    }
}

/// The digest, in wire form, of a byte sequence.
pub open spec fn digest_of(data: Seq<u8>) -> Seq<char> {
    lower_hex(md5_digest(data))
}

impl Hasher {
    /// Starts a digest over the empty stream.
    pub fn new() -> (hasher: Self)
        ensures
            hasher@ == Seq::<u8>::empty(),
    {
        Hasher { ctx: context_new() }
    }

    /// Appends `data` to the stream.
    pub fn consume(&mut self, data: &[u8])
        ensures
            final(self)@ == old(self)@ + data@,
    {
        context_consume(&mut self.ctx, data);
    }

    /// Ends the stream and returns its digest in wire form.
    pub fn finish(self) -> (hex: String)
        ensures
            hex@ == digest_of(self@),
            is_digest(hex@),
    {
        let digest = context_compute(self.ctx);
        proof {
            lemma_lower_hex_shape(digest@);
        }
        digest_hex(&digest)
    }
}

/// The digest, in wire form, of `data`.
pub fn hex_digest(data: &[u8]) -> (hex: String)
    ensures
        hex@ == digest_of(data@),
        is_digest(hex@),
{
    let mut hasher = Hasher::new();
    hasher.consume(data);
    assert(hasher@ =~= data@);
    hasher.finish()
}

/// Whether `text` has the wire form of a digest.
pub fn is_digest_text(text: &str) -> (ok: bool)
    ensures
        ok == is_digest(text@),
{
    if !text.is_ascii() {
        proof {
            if is_digest(text@) {
                assert forall|i: int| 0 <= i < text@.len() implies '\0' <= #[trigger] text@[i]
                    <= '\u{7f}' by {
                    assert(is_hex_char(text@[i]));
                }
            }
        }
        return false;
    }
    let bytes = text.as_bytes();
    proof {
        vstd::utf8::is_ascii_chars_encode_utf8(text@);
    }
    if bytes.len() != 32 {
        return false;
    }
    let mut i: usize = 0;
    while i < 32
        invariant
            i <= 32,
            bytes@.len() == 32,
            text@.len() == 32,
            forall|j: int| 0 <= j < 32 ==> text@[j] as u8 == #[trigger] bytes@[j],
            forall|j: int| 0 <= j < 32 ==> '\0' <= #[trigger] text@[j] <= '\u{7f}',
            forall|j: int| 0 <= j < i ==> is_hex_char(#[trigger] text@[j]),
        decreases 32 - i,
    {
        let b = bytes[i];
        assert(b == text@[i as int] as u8);
        assert('\0' <= text@[i as int] <= '\u{7f}');
        let hex = (48 <= b && b <= 57) || (97 <= b && b <= 102);
        assert(hex == is_hex_char(text@[i as int]));
        if !hex {
            return false;
        }
        i = i + 1;
    }
    true
}

} // verus!
