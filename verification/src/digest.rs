//! SHA-256 digests and their lower-case hexadecimal text.
use vstd::prelude::*;

verus! {

/// Incremental SHA-256 (`sha2::Sha256`), seen as the sequence of bytes fed to
/// it so far.
#[verifier::external_body]
pub struct Sha256Stream {
    state: sha2::Sha256,
}

/// The bytes fed to a hasher so far.
pub uninterp spec fn sha256_fed(s: Sha256Stream) -> Seq<u8>;

/// The SHA-256 digest of `data`.
pub uninterp spec fn sha256_of(data: Seq<u8>) -> Seq<u8>;

impl Sha256Stream {
    /// `sha2::Sha256::new` (via `Digest::new`): a hasher that has seen nothing.
    #[verifier::external_body]
    fn new() -> (res: Self)
        ensures
            sha256_fed(res) == Seq::<u8>::empty(),
    {
        Sha256Stream { state: <sha2::Sha256 as sha2::Digest>::new() }
    }

    /// `sha2::Digest::update`: the bytes fed so far are followed by `data`.
    #[verifier::external_body]
    fn update(&mut self, data: &[u8])
        ensures
            sha256_fed(*final(self)) == sha256_fed(*old(self)) + data@,
    {
        sha2::Digest::update(&mut self.state, data);
    }

    /// `sha2::Digest::finalize`: the 32-byte SHA-256 digest of all the bytes fed.
    #[verifier::external_body]
    fn finish(self) -> (res: Vec<u8>)
        ensures
            res@ == sha256_of(sha256_fed(self)),
            res@.len() == 32,
    {
        sha2::Digest::finalize(self.state).to_vec()
    }

    /// A hasher that has been fed nothing.
    pub fn start() -> (res: Self)
        ensures
            sha256_fed(res) == Seq::<u8>::empty(),
    {
        Self::new()
    }

    /// Feeds `data` after the bytes fed so far (a file is hashed by feeding
    /// it chunk by chunk).
    pub fn feed(&mut self, data: &[u8])
        ensures
            sha256_fed(*final(self)) == sha256_fed(*old(self)) + data@,
    {
        self.update(data);
    }

    /// The SHA-256 digest of all the bytes fed.
    pub fn digest(self) -> (res: Vec<u8>)
        ensures
            res@ == sha256_of(sha256_fed(self)),
            res@.len() == 32,
    {
        self.finish()
    }
}

/// The SHA-256 digest of `data`.
pub fn sha256(data: &[u8]) -> (res: Vec<u8>)
    ensures
        res@ == sha256_of(data@),
        res@.len() == 32,
{
    let mut h = Sha256Stream::new();
    h.update(data);
    assert(Seq::<u8>::empty() + data@ =~= data@);
    h.finish()
}

/// The lower-case hexadecimal digit for a value below 16.
pub open spec fn hex_digit(v: u8) -> char {
    if v < 10 {
        (('0' as u8) + v) as char
    } else {
        (('a' as u8) + v - 10) as char
    }
}

/// Lower-case hexadecimal text of `bytes`, two digits per byte.
pub open spec fn hex_lower(bytes: Seq<u8>) -> Seq<char>
    decreases bytes.len(),
{
    if bytes.len() == 0 {
        seq![]
    } else {
        hex_lower(bytes.drop_last()) + seq![hex_digit(bytes.last() / 16), hex_digit(bytes.last() % 16)]
    }
}

/// The digit character for a value below 16.
fn hex_char(v: u8) -> (res: char)
    requires
        v < 16,
    ensures
        res == hex_digit(v),
{
    if v < 10 {
        (48u8 + v) as char
    } else {
        (97u8 + v - 10) as char
    }
}

/// Lower-case hexadecimal text of `bytes`, two digits per byte.
pub fn to_hex(bytes: &[u8]) -> (res: String)
    ensures
        res@ == hex_lower(bytes@),
        res@.len() == 2 * bytes@.len(),
{
    let mut res = String::new();
    let mut i: usize = 0;
    while i < bytes.len()
        invariant
            i <= bytes.len(),
            res@ == hex_lower(bytes@.take(i as int)),
            res@.len() == 2 * i,
        decreases bytes.len() - i,
    {
        let b = bytes[i];
        crate::text::push_char(&mut res, hex_char(b / 16));
        crate::text::push_char(&mut res, hex_char(b % 16));
        assert(bytes@.take(i + 1).drop_last() =~= bytes@.take(i as int));
        i += 1;
    }
    assert(bytes@.take(i as int) =~= bytes@);
    res
}

} // verus!
