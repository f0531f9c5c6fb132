//! Embeddings of texts: which backend makes them, and the counts that the built-in one is
//! made of.
//!
//! The built-in embedding hashes each word of a text into one of a fixed number of
//! buckets and adds one to it or takes one away, by a second hash. The vector of counts
//! is brought to length one where it is used.
use vstd::prelude::*;
use vstd::string::StringExecFns;
use crate::relation_vocab;
use crate::text;

verus! {

/// The length of embeddings.
pub const EMBED_DIM: usize = 384;

/// Why a text could not be embedded.
#[derive(Debug)]
pub enum EmbedError {
    Backend(String),
}

pub open spec fn backend_error(error: EmbedError) -> Seq<char> {
    match error {
        EmbedError::Backend(message) => message@,
    }
}

impl EmbedError {
    /// The error in words.
    pub fn message(&self) -> (r: String)
        ensures
            r@ == "embedding backend error: "@ + backend_error(*self),
    {
        match self {
            EmbedError::Backend(message) => {
                let mut r: String = text::owned("embedding backend error: ");
                r.append(message.as_str());
                r
            },
        }
    }
}

// ---- hashes ---------------------------------------------------------------------------------

/// The FNV-1a hash of the first `n` bytes.
pub open spec fn fnv1a_spec(bytes: Seq<u8>, n: nat) -> u64
    decreases n,
{
    if n == 0 {
        0xcbf29ce484222325u64
    } else {
        (fnv1a_spec(bytes, (n - 1) as nat) ^ (bytes[n - 1] as u64)).wrapping_mul(
            0x100000001b3u64,
        )
    }
}

/// The FNV-1a hash of bytes.
pub fn fnv1a(bytes: &[u8]) -> (r: u64)
    ensures
        r == fnv1a_spec(bytes@, bytes@.len()),
{
    let mut hash: u64 = 0xcbf29ce484222325;
    let mut i: usize = 0;
    while i < bytes.len()
        invariant
            i <= bytes@.len(),
            hash == fnv1a_spec(bytes@, i as nat),
        decreases bytes@.len() - i,
    {
        hash = (hash ^ (bytes[i] as u64)).wrapping_mul(0x100000001b3);
        i = i + 1;
    }
    hash
}

/// The hash of a text, by its bytes in UTF-8.
pub open spec fn text_hash(s: Seq<char>) -> u64 {
    fnv1a_spec(vstd::utf8::encode_utf8(s), vstd::utf8::encode_utf8(s).len())
}

fn hash_text(s: &str) -> (r: u64)
    ensures
        r == text_hash(s@),
{
    fnv1a(s.as_bytes())
}

/// The bucket of a word.
pub open spec fn bucket_spec(token: Seq<char>) -> int {
    text_hash(token) as int % 384
}

/// Whether a word adds to its bucket or takes away.
pub open spec fn sign_spec(token: Seq<char>) -> int {
    if text_hash(token + "#sign"@) % 2 == 0 {
        1
    } else {
        -1
    }
}

/// The counts of the first `n` words.
pub open spec fn counts_spec(tokens: Seq<Seq<char>>, n: nat) -> Seq<i128>
    decreases n,
{
    if n == 0 {
        Seq::new(384, |i: int| 0i128)
    } else {
        let before = counts_spec(tokens, (n - 1) as nat);
        let bucket = bucket_spec(tokens[n - 1]);
        before.update(bucket, (before[bucket] + sign_spec(tokens[n - 1])) as i128)
    }
}

/// The counts of words.
pub fn hash_tokens(tokens: &Vec<String>) -> (r: Vec<i128>)
    ensures
        r@ == counts_spec(text::views(tokens@), tokens@.len()),
        r@.len() == EMBED_DIM,
{
    let ghost all = text::views(tokens@);
    let mut counts: Vec<i128> = Vec::new();
    let mut k: usize = 0;
    while k < EMBED_DIM
        invariant
            k <= EMBED_DIM,
            counts@.len() == k,
            forall|i: int| 0 <= i < k ==> #[trigger] counts@[i] == 0,
        decreases EMBED_DIM - k,
    {
        counts.push(0);
        k = k + 1;
    }
    let mut i: usize = 0;
    assert(counts@ =~= counts_spec(all, 0));
    while i < tokens.len()
        invariant
            i <= tokens.len(),
            all == text::views(tokens@),
            counts@.len() == EMBED_DIM,
            counts@ == counts_spec(all, i as nat),
            forall|k: int| 0 <= k < EMBED_DIM ==> -i <= #[trigger] counts@[k] <= i,
        decreases tokens@.len() - i,
    {
        let ghost token = all[i as int];
        assert(token == tokens@[i as int]@);
        let bucket: usize = (hash_text(tokens[i].as_str()) % 384) as usize;
        let mut signed: String = tokens[i].clone();
        signed.append("#sign");
        let odd: u64 = hash_text(signed.as_str()) % 2;
        let sign: i128 = if odd == 0 {
            1
        } else {
            -1
        };
        let ghost before = counts@;
        let count: i128 = counts[bucket] + sign;
        counts.set(bucket, count);
        assert(counts@ =~= before.update(
            bucket_spec(token),
            (before[bucket_spec(token)] + sign_spec(token)) as i128,
        ));
        i = i + 1;
    }
    counts
}

/// A text in small letters, by the rules of Unicode.
pub uninterp spec fn unicode_lower(s: Seq<char>) -> Seq<char>;

/// `str::to_lowercase`: a text in small letters. Which letters those are stands behind
/// the name.
#[verifier::external_body]
pub(crate) fn lowercase(s: &str) -> (r: String)
    ensures
        r@ == unicode_lower(s@),
{
    s.to_lowercase()
}

/// The words of a text in small letters.
pub open spec fn tokens_spec(s: Seq<char>) -> Seq<Seq<char>> {
    Seq::new(text::words_spec(s).len(), |i: int| unicode_lower(text::words_spec(s)[i]))
}

fn tokens_of(s: &str) -> (r: Vec<String>)
    ensures
        text::views(r@) == tokens_spec(s@),
{
    let words: Vec<String> = text::words(s);
    let ghost all = text::words_spec(s@);
    let mut r: Vec<String> = Vec::new();
    let mut i: usize = 0;
    while i < words.len()
        invariant
            i <= words@.len(),
            all == text::views(words@),
            r@.len() == i,
            forall|k: int| 0 <= k < i ==> (#[trigger] r@[k])@ == unicode_lower(all[k]),
        decreases words@.len() - i,
    {
        assert(all[i as int] == words@[i as int]@);
        r.push(lowercase(words[i].as_str()));
        i = i + 1;
    }
    assert(text::views(r@) =~= tokens_spec(s@));
    r
}

/// The counts that the built-in embedding of a text is made of.
pub fn hash_counts(s: &str) -> (r: Vec<i128>)
    ensures
        r@ == counts_spec(tokens_spec(s@), tokens_spec(s@).len()),
        r@.len() == EMBED_DIM,
{
    let tokens: Vec<String> = tokens_of(s);
    hash_tokens(&tokens)
}

/// A text without words has counts of nothing but zero.
pub proof fn law_blank_texts_count_nothing(s: Seq<char>, i: int)
    requires
        text::words_spec(s).len() == 0,
        0 <= i < 384,
    ensures
        counts_spec(tokens_spec(s), tokens_spec(s).len())[i] == 0,
{
}

// ---- backends -----------------------------------------------------------------------------------

/// What makes embeddings.
#[derive(Debug, Clone, Copy, PartialEq, Eq, Structural)]
pub enum Backend {
    /// The built-in one.
    Hash,
    /// A neural one on the ONNX runtime.
    FastEmbed,
}

/// The backend with a name. The default is the neural one where it is built in.
pub open spec fn backend_spec(name: Option<Seq<char>>, has_fastembed: bool) -> Result<
    Backend,
    Seq<char>,
> {
    match name {
        None => Ok(default_spec(has_fastembed)),
        Some(n) => if n == ""@ || n == "default"@ {
            Ok(default_spec(has_fastembed))
        } else if n == "hash"@ {
            Ok(Backend::Hash)
        } else if n == "fastembed"@ {
            if has_fastembed {
                Ok(Backend::FastEmbed)
            } else {
                Err(
                    "fastembed backend not compiled in — rebuild with `--features fastembed-backend`"@,
                )
            }
        } else {
            Err("unknown embedding provider '"@ + n + "' (known: hash, fastembed)"@)
        },
    }
}

pub open spec fn default_spec(has_fastembed: bool) -> Backend {
    if has_fastembed {
        Backend::FastEmbed
    } else {
        Backend::Hash
    }
}

/// The backend that is used where none is named.
pub fn default_backend(has_fastembed: bool) -> (r: Backend)
    ensures
        r == default_spec(has_fastembed),
{
    if has_fastembed {
        Backend::FastEmbed
    } else {
        Backend::Hash
    }
}

/// The backend with a name, given whether the neural one is built in.
pub fn backend_by_name(name: Option<&str>, has_fastembed: bool) -> (r: Result<Backend, EmbedError>)
    ensures
        ({
            let spec = backend_spec(relation_vocab::str_view(name), has_fastembed);
            &&& r is Ok == spec is Ok
            &&& r is Ok ==> r->Ok_0 == spec->Ok_0
            &&& r is Err ==> backend_error(r->Err_0) == spec->Err_0
        }),
{
    let n: &str = match name {
        Some(n) => n,
        None => return Ok(default_backend(has_fastembed)),
    };
    if text::same(n, "") || text::same(n, "default") {
        return Ok(default_backend(has_fastembed));
    }
    if text::same(n, "hash") {
        return Ok(Backend::Hash);
    }
    if text::same(n, "fastembed") {
        return if has_fastembed {
            Ok(Backend::FastEmbed)
        } else {
            Err(
                EmbedError::Backend(
                    text::owned(
                        "fastembed backend not compiled in — rebuild with `--features fastembed-backend`",
                    ),
                ),
            )
        };
    }
    let mut message: String = text::owned("unknown embedding provider '");
    message.append(n);
    message.append("' (known: hash, fastembed)");
    Err(EmbedError::Backend(message))
}

impl Backend {
    /// The name that the backend's work is recorded under.
    pub fn name(&self) -> (r: &'static str)
        ensures
            r@ == (match *self {
                Backend::Hash => "hash"@,
                Backend::FastEmbed => "fastembed:AllMiniLML6V2Q"@,
            }),
    {
        match self {
            Backend::Hash => "hash",
            Backend::FastEmbed => "fastembed:AllMiniLML6V2Q",
        }
    }
}

// ---- devices ------------------------------------------------------------------------------------

/// Where a model runs.
#[derive(Debug, Clone, Copy, PartialEq, Eq, Structural)]
pub enum CandleDevice {
    Cpu,
    /// A CUDA device, by its number.
    Cuda(usize),
}

impl CandleDevice {
    /// The name that work on the device is recorded under.
    pub fn name(&self) -> (r: &'static str)
        ensures
            r@ == (match *self {
                CandleDevice::Cpu => "candle-cpu:all-MiniLM-L6-v2"@,
                CandleDevice::Cuda(_) => "candle-cuda:all-MiniLM-L6-v2"@,
            }),
    {
        match self {
            CandleDevice::Cpu => "candle-cpu:all-MiniLM-L6-v2",
            CandleDevice::Cuda(_) => "candle-cuda:all-MiniLM-L6-v2",
        }
    }

    /// Whether the device can be had, given whether the program has CUDA. A CUDA device
    /// that cannot be had is an error; the processor never stands in for it.
    pub fn check(&self, has_cuda: bool) -> (r: Result<(), EmbedError>)
        ensures
            r is Err == (*self is Cuda && !has_cuda),
            r is Err ==> backend_error(r->Err_0)
                == "candle-cuda requested, but this binary was built without CUDA support; rebuild with `--features candle-backend,candle-transformers/cuda` (no CPU fallback)"@,
    {
        match self {
            CandleDevice::Cpu => Ok(()),
            CandleDevice::Cuda(_) => if has_cuda {
                Ok(())
            } else {
                Err(
                    EmbedError::Backend(
                        text::owned(
                            "candle-cuda requested, but this binary was built without CUDA support; rebuild with `--features candle-backend,candle-transformers/cuda` (no CPU fallback)",
                        ),
                    ),
                )
            },
        }
    }
}

/// One more token changes exactly one count, by one.
pub proof fn law_a_token_changes_one_count(tokens: Seq<Seq<char>>, n: nat, i: int)
    requires
        n < tokens.len(),
        n < 0x1_0000_0000_0000_0000,
        0 <= i < 384,
    ensures
        ({
            let before = counts_spec(tokens, n);
            let after = counts_spec(tokens, n + 1);
            &&& 0 <= bucket_spec(tokens[n as int]) < 384
            &&& i != bucket_spec(tokens[n as int]) ==> after[i] == before[i]
            &&& i == bucket_spec(tokens[n as int]) ==> after[i] == before[i] + 1 || after[i]
                == before[i] - 1
        }),
{
    lemma_counts_are_small(tokens, n, i);
}

proof fn lemma_counts_are_small(tokens: Seq<Seq<char>>, n: nat, i: int)
    requires
        n <= tokens.len(),
        n <= 0x1_0000_0000_0000_0000,
        0 <= i < 384,
    ensures
        counts_spec(tokens, n).len() == 384,
        -(n as int) <= counts_spec(tokens, n)[i] <= n,
    decreases n,
{
    if n > 0 {
        lemma_counts_are_small(tokens, (n - 1) as nat, i);
    }
}

/// The order of two tokens next to each other does not matter for the counts.
pub proof fn law_the_order_of_tokens_does_not_matter(
    a: Seq<Seq<char>>,
    b: Seq<Seq<char>>,
    n: nat,
    i: int,
)
    requires
        n + 2 <= a.len(),
        n + 2 <= b.len(),
        n + 2 < 0x1_0000_0000_0000_0000,
        forall|k: int| 0 <= k < n ==> a[k] == b[k],
        a[n as int] == b[n as int + 1],
        a[n as int + 1] == b[n as int],
        0 <= i < 384,
    ensures
        counts_spec(a, n + 2)[i] == counts_spec(b, n + 2)[i],
{
    lemma_same_counts(a, b, n);
    lemma_counts_are_small(a, n, bucket_spec(a[n as int]));
    lemma_counts_are_small(a, n, bucket_spec(a[n as int + 1]));
    lemma_counts_are_small(a, n + 1, bucket_spec(a[n as int + 1]));
    lemma_counts_are_small(b, n + 1, bucket_spec(b[n as int + 1]));
    lemma_counts_are_small(a, n, i);
    let x = counts_spec(a, n);
    assert(counts_spec(a, (n + 2) as nat) == counts_spec(a, n + 1).update(
        bucket_spec(a[n as int + 1]),
        (counts_spec(a, n + 1)[bucket_spec(a[n as int + 1])] + sign_spec(a[n as int + 1])) as i128,
    ));
    assert(counts_spec(b, (n + 2) as nat) == counts_spec(b, n + 1).update(
        bucket_spec(b[n as int + 1]),
        (counts_spec(b, n + 1)[bucket_spec(b[n as int + 1])] + sign_spec(b[n as int + 1])) as i128,
    ));
    assert(x.len() == 384);
}

proof fn lemma_same_counts(a: Seq<Seq<char>>, b: Seq<Seq<char>>, n: nat)
    requires
        n <= a.len(),
        n <= b.len(),
        forall|k: int| 0 <= k < n ==> a[k] == b[k],
    ensures
        counts_spec(a, n) == counts_spec(b, n),
    decreases n,
{
    if n > 0 {
        lemma_same_counts(a, b, (n - 1) as nat);
    }
}

/// A backend is chosen by its name: `hash` always, `fastembed` where it is built in, and
/// no name, the empty one or `default` for the best that is there; any other name is
/// refused.
pub proof fn law_backends_are_chosen_by_name(name: Option<Seq<char>>, has_fastembed: bool)
    ensures
        ({
            let chosen = backend_spec(name, has_fastembed);
            let free = name matches Some(n) ==> n == ""@ || n == "default"@;
            let hash = name matches Some(n) && n == "hash"@;
            let fast = name matches Some(n) && n == "fastembed"@;
            &&& (chosen matches Ok(b) && b is Hash) <==> hash || (free && !has_fastembed)
            &&& (chosen matches Ok(b) && b is FastEmbed) <==> has_fastembed && (free || fast)
        }),
{
    reveal_strlit("");
    reveal_strlit("default");
    reveal_strlit("hash");
    reveal_strlit("fastembed");
    assert("default"@[0] == 'd' && "hash"@[0] == 'h' && "fastembed"@[0] == 'f');
    assert(""@.len() == 0 && "hash"@.len() == 4 && "fastembed"@.len() == 9);
}

} // verus!
