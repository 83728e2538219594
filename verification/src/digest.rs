//! MD5 file fingerprints through the `md5` crate, rendered as lowercase hex.
use vstd::prelude::*;

verus! {

/// The outside type `md5::Context`, an MD5 computation in progress.
#[verifier::external_type_specification]
#[verifier::external_body]
pub struct ExMd5Context(md5::Context);

/// The bytes that an MD5 context has been fed since it was created.
pub uninterp spec fn md5_fed(ctx: md5::Context) -> Seq<u8>;

/// The MD5 digest of a byte string.
pub uninterp spec fn md5_of(data: Seq<u8>) -> Seq<u8>;

/// A fresh MD5 computation.
///
/// Trusted: `md5::Context::new`, which starts from the initial MD5 state with
/// nothing consumed.
#[verifier::external_body]
fn md5_new() -> (res: md5::Context)
    ensures
        md5_fed(res) == Seq::<u8>::empty(),
{
    md5::Context::new()
}

/// Feeds bytes to an MD5 computation.
///
/// Trusted: `md5::Context::consume`, which appends `data` to the stream being
/// hashed.
#[verifier::external_body]
fn md5_consume(ctx: &mut md5::Context, data: &[u8])
    ensures
        md5_fed(*final(ctx)) == md5_fed(*old(ctx)) + data@,
{
    ctx.consume(data);
}

/// Finishes an MD5 computation.
///
/// Trusted: `md5::Context::finalize`, which returns the 16-byte MD5 digest of
/// everything consumed.
#[verifier::external_body]
fn md5_finalize(ctx: md5::Context) -> (res: [u8; 16])
    ensures
        res@ == md5_of(md5_fed(ctx)),
{
    ctx.finalize().0
}

/// The lowercase hexadecimal digit of a number below sixteen.
pub open spec fn hex_digit(n: u8) -> char {
    if n < 10 {
        ((n + 48) as u8) as char
    } else {
        ((n + 87) as u8) as char
    }
}

/// Each byte as two lowercase hexadecimal digits (`{:02x}`), concatenated.
pub open spec fn hex(bytes: Seq<u8>) -> Seq<char>
    decreases bytes.len(),
{
    if bytes.len() == 0 {
        Seq::<char>::empty()
    } else {
        hex(bytes.drop_last()) + seq![hex_digit(bytes.last() / 16), hex_digit(bytes.last() % 16)]
    }
}

/// A hexadecimal rendering has two digits per byte.
pub proof fn lemma_hex_len(bytes: Seq<u8>)
    ensures
        hex(bytes).len() == 2 * bytes.len(),
    decreases bytes.len(),
{
    if bytes.len() > 0 {
        lemma_hex_len(bytes.drop_last());
    }
}

/// Bytes as lowercase hexadecimal.
pub fn hex_lower(bytes: &[u8]) -> (res: String)
    ensures
        res@ == hex(bytes@),
{
    let mut res = String::new();
    let mut i: usize = 0;
    while i < bytes.len()
        invariant
            i <= bytes.len(),
            res@ == hex(bytes@.take(i as int)),
        decreases bytes.len() - i,
    {
        let b = bytes[i];
        let hi = b / 16;
        let lo = b % 16;
        let c1 = if hi < 10 { (hi + 48) as char } else { (hi + 87) as char };
        let c2 = if lo < 10 { (lo + 48) as char } else { (lo + 87) as char };
        assert(bytes@.take(i + 1).drop_last() == bytes@.take(i as int));
        crate::text::push_char(&mut res, c1);
        crate::text::push_char(&mut res, c2);
        assert(res@ =~= hex(bytes@.take(i + 1)));
        i += 1;
    }
    assert(bytes@.take(bytes.len() as int) == bytes@);
    res
}

/// An MD5 fingerprint being computed over a stream of bytes.
pub struct FileHasher {
    ctx: md5::Context,
}

impl FileHasher {
    /// The bytes fed so far.
    pub closed spec fn fed(&self) -> Seq<u8> {
        md5_fed(self.ctx)
    }

    /// A hasher that has been fed nothing.
    pub fn new() -> (res: FileHasher)
        ensures
            res.fed() == Seq::<u8>::empty(),
    {
        FileHasher { ctx: md5_new() }
    }

    /// Feeds the next chunk of the stream.
    pub fn feed(&mut self, chunk: &[u8])
        ensures
            final(self).fed() == old(self).fed() + chunk@,
    {
        md5_consume(&mut self.ctx, chunk);
    }

    /// The fingerprint of everything fed: the MD5 digest in lowercase hex,
    /// 32 digits.
    pub fn finish(self) -> (res: String)
        ensures
            res@ == hex(md5_of(self.fed())),
            res@.len() == 32,
    {
        let d = md5_finalize(self.ctx);
        proof {
            lemma_hex_len(d@);
        }
        hex_lower(&d)
    }
}

} // verus!
