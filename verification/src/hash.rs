//! Content hashes, computed over a stream of chunks.
use sha2::Digest;
use vstd::prelude::*;

verus! {

#[derive(Clone, Copy, Debug, PartialEq, Eq, Structural)]
pub enum HashAlgo {
    /// The default.
    Blake3,
    /// For interoperation with standard tools.
    Sha256,
}

/// The name that manifests record for an algorithm.
pub open spec fn algo_name(algo: HashAlgo) -> Seq<char> {
    match algo {
        HashAlgo::Blake3 => "blake3"@,
        HashAlgo::Sha256 => "sha256"@,
    }
}

impl HashAlgo {
    pub fn name(self) -> (r: &'static str)
        ensures
            r@ == algo_name(self),
    {
        match self {
            HashAlgo::Blake3 => "blake3",
            HashAlgo::Sha256 => "sha256",
        }
    }
}

/// A lowercase hexadecimal digit.
pub open spec fn hex_digit(n: int) -> char {
    if n < 10 {
        (n + '0' as int) as char
    } else {
        (n - 10 + 'a' as int) as char
    }
}

/// Two lowercase hexadecimal digits for each byte.
pub open spec fn hex_text(bytes: Seq<u8>) -> Seq<char>
    decreases bytes.len(),
{
    if bytes.len() == 0 {
        Seq::empty()
    } else {
        hex_text(bytes.drop_last()).push(hex_digit(bytes.last() as int / 16)).push(
            hex_digit(bytes.last() as int % 16),
        )
    }
}

/// A running BLAKE3, without a key and from the start of its input.
#[verifier::external_body]
pub struct Blake3State {
    inner: blake3::Hasher,
}

/// A running SHA-256.
#[verifier::external_body]
pub struct Sha256State {
    inner: sha2::Sha256,
}

/// The bytes that a BLAKE3 has taken in.
pub uninterp spec fn blake3_input(h: Blake3State) -> Seq<u8>;

/// The bytes that a SHA-256 has taken in.
pub uninterp spec fn sha256_input(h: Sha256State) -> Seq<u8>;

/// The BLAKE3 digest of some bytes.
pub uninterp spec fn blake3_digest(bytes: Seq<u8>) -> Seq<u8>;

/// The SHA-256 digest of some bytes.
pub uninterp spec fn sha256_digest(bytes: Seq<u8>) -> Seq<u8>;

/// `blake3::Hasher::new`: a hasher that has taken in nothing.
#[verifier::external_body]
fn blake3_new() -> (h: Blake3State)
    ensures
        blake3_input(h) == Seq::<u8>::empty(),
{
    Blake3State { inner: blake3::Hasher::new() }
}

/// `blake3::Hasher::update`: takes in more bytes behind those it has.
#[verifier::external_body]
fn blake3_update(h: &mut Blake3State, chunk: &[u8])
    ensures
        blake3_input(*final(h)) == blake3_input(*old(h)) + chunk@,
{
    h.inner.update(chunk);
}

/// `blake3::Hasher::finalize` and `Hash::to_hex`: the digest of all bytes taken in,
/// 32 bytes in lowercase hexadecimal.
#[verifier::external_body]
fn blake3_hex(h: &Blake3State) -> (r: String)
    ensures
        r@ == hex_text(blake3_digest(blake3_input(*h))),
        r@.len() == 64,
{
    h.inner.finalize().to_hex().to_string()
}

/// `Sha256::new`: a hasher that has taken in nothing.
#[verifier::external_body]
fn sha256_new() -> (h: Sha256State)
    ensures
        sha256_input(h) == Seq::<u8>::empty(),
{
    Sha256State { inner: sha2::Sha256::new() }
}

/// `Digest::update` of `Sha256`: takes in more bytes behind those it has.
#[verifier::external_body]
fn sha256_update(h: &mut Sha256State, chunk: &[u8])
    ensures
        sha256_input(*final(h)) == sha256_input(*old(h)) + chunk@,
{
    h.inner.update(chunk);
}

/// `Digest::finalize` of `Sha256`: the digest of all bytes taken in, 32 bytes.
#[verifier::external_body]
fn sha256_finalize(h: Sha256State) -> (r: Vec<u8>)
    ensures
        r@ == sha256_digest(sha256_input(h)),
        r@.len() == 32,
{
    h.inner.finalize().to_vec()
}

/// `hex::encode`: two lowercase hexadecimal digits for each byte.
#[verifier::external_body]
fn hex_encode(bytes: &Vec<u8>) -> (r: String)
    ensures
        r@ == hex_text(bytes@),
{
    hex::encode(bytes)
}

/// The text that a manifest records for some content.
pub open spec fn digest_text(algo: HashAlgo, content: Seq<u8>) -> Seq<char> {
    match algo {
        HashAlgo::Blake3 => hex_text(blake3_digest(content)),
        HashAlgo::Sha256 => hex_text(sha256_digest(content)),
    }
}

/// Hashes content that comes in chunks.
pub enum ContentHasher {
    Blake3(Blake3State),
    Sha256(Sha256State),
}

impl ContentHasher {
    pub open spec fn algo(&self) -> HashAlgo {
        match *self {
            ContentHasher::Blake3(_) => HashAlgo::Blake3,
            ContentHasher::Sha256(_) => HashAlgo::Sha256,
        }
    }

    /// The content so far.
    pub open spec fn content(&self) -> Seq<u8> {
        match *self {
            ContentHasher::Blake3(h) => blake3_input(h),
            ContentHasher::Sha256(h) => sha256_input(h),
        }
    }

    pub fn new(algo: HashAlgo) -> (r: Self)
        ensures
            r.algo() == algo,
            r.content() == Seq::<u8>::empty(),
    {
        match algo {
            HashAlgo::Blake3 => ContentHasher::Blake3(blake3_new()),
            HashAlgo::Sha256 => ContentHasher::Sha256(sha256_new()),
        }
    }

    /// Takes in the next chunk.
    pub fn update(&mut self, chunk: &[u8])
        ensures
            final(self).algo() == old(self).algo(),
            final(self).content() == old(self).content() + chunk@,
    {
        match self {
            ContentHasher::Blake3(h) => blake3_update(h, chunk),
            ContentHasher::Sha256(h) => sha256_update(h, chunk),
        }
    }

    /// The lowercase hexadecimal digest of all chunks.
    pub fn finish(self) -> (r: String)
        ensures
            r@ == digest_text(self.algo(), self.content()),
    {
        match self {
            ContentHasher::Blake3(h) => blake3_hex(&h),
            ContentHasher::Sha256(h) => hex_encode(&sha256_finalize(h)),
        }
    }
}

/// All chunks, one behind the other.
pub open spec fn flat(chunks: Seq<Seq<u8>>) -> Seq<u8>
    decreases chunks.len(),
{
    if chunks.len() == 0 {
        Seq::empty()
    } else {
        flat(chunks.drop_last()) + chunks.last()
    }
}

/// The views of some chunks.
pub open spec fn chunk_views(chunks: Seq<Vec<u8>>) -> Seq<Seq<u8>> {
    chunks.map_values(|c: Vec<u8>| c@)
}

/// The digest of content that was read in chunks: how it was cut does not matter.
pub fn hash_chunks(chunks: &Vec<Vec<u8>>, algo: HashAlgo) -> (r: String)
    ensures
        r@ == digest_text(algo, flat(chunk_views(chunks@))),
{
    let mut hasher: ContentHasher = ContentHasher::new(algo);
    let ghost all = chunk_views(chunks@);
    let mut i: usize = 0;
    assert(all.take(0) =~= Seq::<Seq<u8>>::empty());
    while i < chunks.len()
        invariant
            i <= chunks@.len(),
            all == chunk_views(chunks@),
            hasher.algo() == algo,
            hasher.content() == flat(all.take(i as int)),
        decreases chunks@.len() - i,
    {
        proof {
            assert(all.take(i + 1).drop_last() =~= all.take(i as int));
            assert(all.take(i + 1).last() == chunks@[i as int]@);
        }
        hasher.update(chunks[i].as_slice());
        i += 1;
    }
    assert(all.take(all.len() as int) =~= all);
    hasher.finish()
}

/// A digest is written byte by byte in lower-case hexadecimal, the high half first, and
/// each byte reads back.
pub proof fn law_digests_are_written_in_hexadecimal(bytes: Seq<u8>, i: int)
    requires
        0 <= i < bytes.len(),
    ensures
        hex_text(bytes).len() == 2 * bytes.len(),
        hex_value(hex_text(bytes)[2 * i]) * 16 + hex_value(hex_text(bytes)[2 * i + 1]) == bytes[i],
        '0' <= hex_text(bytes)[2 * i] <= '9' || 'a' <= hex_text(bytes)[2 * i] <= 'f',
        '0' <= hex_text(bytes)[2 * i + 1] <= '9' || 'a' <= hex_text(bytes)[2 * i + 1] <= 'f',
    decreases bytes.len(),
{
    let init = bytes.drop_last();
    if init.len() > 0 {
        law_digests_are_written_in_hexadecimal(
            init,
            if i < init.len() {
                i
            } else {
                0
            },
        );
    }
    let (before, all) = (hex_text(init), hex_text(bytes));
    if i < init.len() {
        assert(all[2 * i] == before[2 * i] && all[2 * i + 1] == before[2 * i + 1]);
    } else {
        assert(before.len() == 2 * init.len());
        let b = bytes[i] as int;
        assert(all[2 * i] == hex_digit(b / 16) && all[2 * i + 1] == hex_digit(b % 16));
    }
}

/// The number that a digit in hexadecimal stands for.
pub open spec fn hex_value(c: char) -> int {
    if '0' <= c <= '9' {
        c as int - 48
    } else {
        c as int - 87
    }
}

/// How a content is cut into chunks does not matter to its hash.
pub proof fn law_chunks_do_not_matter(
    a: &Vec<Vec<u8>>,
    b: &Vec<Vec<u8>>,
    algo: HashAlgo,
    ra: String,
    rb: String,
)
    requires
        call_ensures(hash_chunks, (a, algo), ra),
        call_ensures(hash_chunks, (b, algo), rb),
        flat(chunk_views(a@)) == flat(chunk_views(b@)),
    ensures
        ra@ == rb@,
{
}

/// The content of chunks is one behind the other, each whole.
pub proof fn law_chunks_stand_one_behind_the_other(a: Seq<Seq<u8>>, b: Seq<Seq<u8>>, c: Seq<u8>)
    ensures
        flat(a + b) == flat(a) + flat(b),
        flat(seq![c]) == c,
    decreases b.len(),
{
    reveal_with_fuel(flat, 2);
    assert(seq![c].drop_last() =~= Seq::<Seq<u8>>::empty());
    assert(flat(seq![c]) =~= c);
    if b.len() == 0 {
        assert(a + b =~= a);
        assert(flat(a) + flat(b) =~= flat(a));
    } else {
        law_chunks_stand_one_behind_the_other(a, b.drop_last(), c);
        assert((a + b).drop_last() =~= a + b.drop_last());
        assert((a + b).last() == b.last());
        assert(flat(a) + flat(b.drop_last()) + b.last() =~= flat(a) + flat(b));
    }
}

/// A hash is the digest of its algorithm, and of no other, in hexadecimal: a hasher that
/// was made for an algorithm keeps to it.
pub proof fn law_hash_is_the_digest_of_its_algorithm(
    algo: HashAlgo,
    content: Seq<u8>,
    h: ContentHasher,
    made: ContentHasher,
    r: String,
)
    requires
        call_ensures(ContentHasher::finish, (h,), r),
        call_ensures(ContentHasher::new, (algo,), made),
    ensures
        algo is Blake3 <==> made is Blake3,
        algo is Sha256 <==> made is Sha256,
        algo is Blake3 ==> digest_text(algo, content) == hex_text(blake3_digest(content)),
        algo is Sha256 ==> digest_text(algo, content) == hex_text(sha256_digest(content)),
        h matches ContentHasher::Blake3(s) ==> r@ == hex_text(blake3_digest(blake3_input(s))),
        h matches ContentHasher::Sha256(s) ==> r@ == hex_text(sha256_digest(sha256_input(s))),
{
}

} // verus!
