//! Embeddings: the deterministic mock embedding, the names of local models, and
//! what is checked of the vectors that a model returns.
use vstd::prelude::*;
use vstd::utf8::encode_utf8;

use crate::numbers::{decimal, push_decimal};
use crate::rag::score::Score;
use crate::rag::types::{fnv1a, hash_text};
use crate::search::{byte_len, bytes_in, same_text};
use crate::text::{alnum_mask, alnum_mask_of, chars_of, lower, lowered, runs, runs_of, trim, trimmed};

verus! {

// ── Errors ───────────────────────────────────────────────────────────────────

/// Why texts could not be embedded.
#[derive(Debug, Clone, Copy, PartialEq, Eq, Structural)]
pub enum EmbedError {
    /// No model is loaded.
    NoModel,
    /// The model returned no vector for a text.
    NoVector,
    /// The model returned no vector for a query.
    NoQueryVector,
    /// The model returned a vector of another dimension.
    Dimension { got: usize, dim: usize },
}

/// What an error says.
pub open spec fn embed_error_text(e: EmbedError) -> Seq<char> {
    match e {
        EmbedError::NoModel => "no embedding model is available"@,
        EmbedError::NoVector => "embedding provider returned no vector"@,
        EmbedError::NoQueryVector => "query embedding produced no vector"@,
        EmbedError::Dimension { got, dim } => "embedding dimension mismatch: model returned "@
            + decimal(got as nat) + " dims, expected "@ + decimal(dim as nat),
    }
}

impl EmbedError {
    /// What the error says.
    pub fn message(&self) -> (r: String)
        ensures
            r@ == embed_error_text(*self),
    {
        match *self {
            EmbedError::NoModel => "no embedding model is available".to_owned(),
            EmbedError::NoVector => "embedding provider returned no vector".to_owned(),
            EmbedError::NoQueryVector => "query embedding produced no vector".to_owned(),
            EmbedError::Dimension { got, dim } => {
                let mut r = "embedding dimension mismatch: model returned ".to_owned();
                push_decimal(&mut r, got as u64);
                r.push_str(" dims, expected ");
                push_decimal(&mut r, dim as u64);
                r
            },
        }
    }
}

/// Checks the dimensions of vectors before they reach the store. The first that
/// does not fit is reported.
pub fn check_vectors(lens: &[usize], dim: usize) -> (r: Result<(), EmbedError>)
    ensures
        match r {
            Ok(()) => forall|i: int| 0 <= i < lens@.len() ==> lens@[i] == dim,
            Err(e) => exists|i: int|
                0 <= i < lens@.len() && #[trigger] lens@[i] != dim && e == (EmbedError::Dimension {
                    got: lens@[i],
                    dim: dim,
                }) && forall|k: int| 0 <= k < i ==> lens@[k] == dim,
        },
{
    let mut i: usize = 0;
    while i < lens.len()
        invariant
            i <= lens@.len(),
            forall|k: int| 0 <= k < i ==> lens@[k] == dim,
        decreases lens@.len() - i,
    {
        if lens[i] != dim {
            return Err(EmbedError::Dimension { got: lens[i], dim: dim });
        }
        i = i + 1;
    }
    Ok(())
}

/// The vector of a single text: the last that the model returned.
pub fn single_vector(vectors: Vec<Vec<Score>>, none: EmbedError) -> (r: Result<
    Vec<Score>,
    EmbedError,
>)
    ensures
        match r {
            Ok(v) => vectors@.len() > 0 && v@ == vectors@.last()@,
            Err(e) => vectors@.len() == 0 && e == none,
        },
{
    let mut vectors = vectors;
    match vectors.pop() {
        Some(v) => Ok(v),
        None => Err(none),
    }
}

// ── The mock embedding ───────────────────────────────────────────────────────

/// The tokens of a text in lower case, of which `mask` marks the letters and
/// digits: those of at least two bytes.
pub open spec fn tokens_in(low: Seq<char>, mask: Seq<bool>) -> Seq<Seq<char>> {
    runs(low, mask).filter(|w: Seq<char>| byte_len(w) >= 2)
}

/// The tokens of a text.
pub open spec fn tokens(text: Seq<char>) -> Seq<Seq<char>> {
    tokens_in(lowered(text), alnum_mask(lowered(text)))
}

/// The bucket that a token falls into.
pub open spec fn bucket(token: Seq<char>, dim: usize) -> int {
    (fnv1a(encode_utf8(token)) as int) % (dim as int)
}

/// How many tokens fall into bucket `b`.
pub open spec fn in_bucket(ts: Seq<Seq<char>>, dim: usize, b: int) -> nat
    decreases ts.len(),
{
    if ts.len() == 0 {
        0
    } else {
        in_bucket(ts.drop_last(), dim, b) + if bucket(ts.last(), dim) == b {
            1nat
        } else {
            0nat
        }
    }
}

/// The weights of a text before they are scaled to length 1: the tokens in each
/// bucket, or a weight of 1 in the first bucket if there is no token.
pub open spec fn weights(ts: Seq<Seq<char>>, dim: usize) -> Seq<nat> {
    Seq::new(
        dim as nat,
        |b: int|
            if ts.len() == 0 && b == 0 {
                1
            } else {
                in_bucket(ts, dim, b)
            },
    )
}

/// A deterministic embedding without a model: tokens are hashed into buckets.
/// Texts that share words get similar vectors.
#[derive(Debug)]
pub struct MockEmbeddingProvider {
    dim: usize,
}

impl MockEmbeddingProvider {
    /// The number of dimensions.
    pub closed spec fn dim(&self) -> usize {
        self.dim
    }

    #[verifier::type_invariant]
    spec fn inv(self) -> bool {
        self.dim > 0
    }

    /// An embedding of `dim` dimensions.
    pub fn new(dim: usize) -> (r: MockEmbeddingProvider)
        requires
            dim > 0,
        ensures
            r.dim() == dim,
    {
        MockEmbeddingProvider { dim: dim }
    }

    /// The bucket that a token falls into.
    pub fn token_bucket(token: &str, dim: usize) -> (r: usize)
        requires
            dim > 0,
        ensures
            r == bucket(token@, dim),
            r < dim,
    {
        let h = hash_text(token);
        (h % (dim as u64)) as usize
    }

    /// The number of dimensions.
    pub fn dimension(&self) -> (r: usize)
        ensures
            r == self.dim(),
            r > 0,
    {
        proof {
            use_type_invariant(self);
        }
        self.dim
    }

    /// A short name for the log.
    pub fn name(&self) -> (r: String)
        ensures
            r@ == "mock-hash-"@ + decimal(self.dim() as nat) + "d"@,
    {
        let mut r = "mock-hash-".to_owned();
        push_decimal(&mut r, self.dim as u64);
        r.push_str("d");
        r
    }

    /// The weights of a text in lower case, of which `mask` marks the letters and
    /// digits.
    pub fn weigh(&self, low: &[char], mask: &[bool]) -> (r: Vec<usize>)
        requires
            mask@.len() == low@.len(),
        ensures
            r@.map_values(|n: usize| n as nat) == weights(tokens_in(low@, mask@), self.dim()),
    {
        proof {
            use_type_invariant(self);
        }
        let dim = self.dim;
        let ws = runs_of(low, mask);
        let ghost all = ws.deep_view();
        let ghost p = |w: Seq<char>| byte_len(w) >= 2;
        let ghost ts: Seq<Seq<char>> = Seq::empty();
        let mut counts: Vec<usize> = Vec::new();
        let mut b: usize = 0;
        while b < dim
            invariant
                b <= dim,
                counts@.len() == b,
                forall|k: int| 0 <= k < b ==> counts@[k] == 0,
            decreases dim - b,
        {
            counts.push(0);
            b = b + 1;
        }
        let mut n: usize = 0;
        let mut i: usize = 0;
        proof {
            reveal(Seq::filter);
            assert(all.take(0).filter(p) =~= ts);
        }
        while i < ws.len()
            invariant
                dim > 0,
                i <= ws@.len(),
                all == ws.deep_view(),
                all.len() == ws@.len(),
                p == (|w: Seq<char>| byte_len(w) >= 2),
                ts == all.take(i as int).filter(p),
                n == ts.len(),
                n <= i,
                counts@.len() == dim,
                forall|k: int|
                    0 <= k < dim ==> #[trigger] counts@[k] == in_bucket(ts, dim, k) && counts@[k]
                        <= n,
            decreases ws@.len() - i,
        {
            proof {
                reveal(Seq::filter);
                let next = all.take(i + 1);
                assert(next.drop_last() =~= all.take(i as int));
                assert(next.last() == ws@[i as int]@);
            }
            if bytes_in(ws[i].as_str()) >= 2 {
                let k = MockEmbeddingProvider::token_bucket(ws[i].as_str(), dim);
                let c = counts[k];
                assert(c <= n);
                let ghost before = counts@;
                counts.set(k, c + 1);
                proof {
                    let more = ts.push(ws@[i as int]@);
                    assert(more.drop_last() =~= ts);
                    assert forall|m: int| 0 <= m < dim implies #[trigger] counts@[m] == in_bucket(
                        more,
                        dim,
                        m,
                    ) && counts@[m] <= n + 1 by {
                        assert(before[m] == in_bucket(ts, dim, m) && before[m] <= n);
                    }
                    ts = more;
                }
                n = n + 1;
            }
            i = i + 1;
        }
        proof {
            assert(all.take(i as int) =~= all);
        }
        if n == 0 {
            counts.set(0, 1);
        }
        proof {
            assert(counts@.map_values(|n: usize| n as nat) =~= weights(ts, dim));
        }
        counts
    }

    /// The weights of a text before they are scaled to length 1.
    pub fn embed_weights(&self, text: &str) -> (r: Vec<usize>)
        ensures
            r@.map_values(|n: usize| n as nat) == weights(tokens(text@), self.dim()),
    {
        let low = lower(text);
        let cs = chars_of(low.as_str());
        let mask = alnum_mask_of(&cs);
        self.weigh(&cs, &mask)
    }

    /// The weights of a batch of texts: for each text those that it has alone.
    pub fn embed(&self, texts: &[String]) -> (r: Vec<Vec<usize>>)
        ensures
            r@.len() == texts@.len(),
            forall|i: int|
                0 <= i < r@.len() ==> (#[trigger] r@[i])@.map_values(|n: usize| n as nat)
                    == weights(tokens(texts@[i]@), self.dim()),
    {
        let mut r: Vec<Vec<usize>> = Vec::new();
        let mut i: usize = 0;
        while i < texts.len()
            invariant
                i <= texts@.len(),
                r@.len() == i,
                forall|k: int|
                    0 <= k < i ==> (#[trigger] r@[k])@.map_values(|n: usize| n as nat) == weights(
                        tokens(texts@[k]@),
                        self.dim(),
                    ),
            decreases texts@.len() - i,
        {
            r.push(self.embed_weights(texts[i].as_str()));
            i = i + 1;
        }
        r
    }
}

/// The tokens in the first `n` buckets.
pub open spec fn sum_to(ts: Seq<Seq<char>>, dim: usize, n: int) -> nat
    decreases n,
{
    if n <= 0 {
        0
    } else {
        sum_to(ts, dim, n - 1) + in_bucket(ts, dim, n - 1)
    }
}

proof fn lemma_sum_step(ts: Seq<Seq<char>>, dim: usize, n: int)
    requires
        dim > 0,
        ts.len() > 0,
        0 <= n <= dim,
    ensures
        sum_to(ts, dim, n) == sum_to(ts.drop_last(), dim, n) + if bucket(ts.last(), dim) < n {
            1nat
        } else {
            0nat
        },
    decreases n,
{
    if n > 0 {
        lemma_sum_step(ts, dim, n - 1);
    }
}

proof fn lemma_sum_empty(ts: Seq<Seq<char>>, dim: usize, n: int)
    requires
        ts.len() == 0,
    ensures
        sum_to(ts, dim, n) == 0,
    decreases n,
{
    if n > 0 {
        lemma_sum_empty(ts, dim, n - 1);
    }
}

/// Every token is counted in exactly one bucket.
pub proof fn every_token_is_counted_once(ts: Seq<Seq<char>>, dim: usize)
    requires
        dim > 0,
    ensures
        sum_to(ts, dim, dim as int) == ts.len(),
    decreases ts.len(),
{
    if ts.len() > 0 {
        every_token_is_counted_once(ts.drop_last(), dim);
        lemma_sum_step(ts, dim, dim as int);
    } else {
        lemma_sum_empty(ts, dim, dim as int);
    }
}

/// No vector is all zeros, so each can be scaled to length 1.
pub proof fn weights_are_never_all_zero(ts: Seq<Seq<char>>, dim: usize)
    requires
        dim > 0,
    ensures
        exists|b: int| 0 <= b < dim && #[trigger] weights(ts, dim)[b] > 0,
{
    if ts.len() == 0 {
        assert(weights(ts, dim)[0] == 1);
    } else {
        let b = bucket(ts.last(), dim);
        assert(weights(ts, dim)[b] > 0);
    }
}

// ── Local models ─────────────────────────────────────────────────────────────

/// The local model that is used unless the settings say otherwise.
pub const DEFAULT_MODEL: &'static str = "all-MiniLM-L6-v2";

/// Its dimension.
pub const DEFAULT_DIM: usize = 384;

/// The local embedding models.
#[derive(Debug, Clone, Copy, PartialEq, Eq, Structural)]
pub enum LocalModel {
    AllMiniLML6V2,
    BGESmallENV15,
    BGEBaseENV15,
    AllMiniLML12V2,
}

/// The model that a name in lower case stands for, if it is known.
pub open spec fn model_named(name: Seq<char>) -> Option<LocalModel> {
    if name == "all-minilm-l6-v2"@ || name == "minilm"@ || name == "minilm-l6"@ || name
        == "allminilml6v2"@ || name == ""@ {
        Some(LocalModel::AllMiniLML6V2)
    } else if name == "bge-small-en-v1.5"@ || name == "bge-small"@ || name == "bgesmallenv15"@ {
        Some(LocalModel::BGESmallENV15)
    } else if name == "bge-base-en-v1.5"@ || name == "bge-base"@ || name == "bgebaseenv15"@ {
        Some(LocalModel::BGEBaseENV15)
    } else if name == "all-minilm-l12-v2"@ || name == "minilm-l12"@ {
        Some(LocalModel::AllMiniLML12V2)
    } else {
        None
    }
}

/// The dimension of a model.
pub open spec fn model_dim(m: LocalModel) -> usize {
    match m {
        LocalModel::BGEBaseENV15 => 768,
        _ => 384,
    }
}

/// The model that a name in lower case stands for, if it is known.
pub fn known_model(name: &str) -> (r: Option<LocalModel>)
    ensures
        r == model_named(name@),
{
    if same_text(name, "all-minilm-l6-v2") || same_text(name, "minilm") || same_text(
        name,
        "minilm-l6",
    ) || same_text(name, "allminilml6v2") || same_text(name, "") {
        Some(LocalModel::AllMiniLML6V2)
    } else if same_text(name, "bge-small-en-v1.5") || same_text(name, "bge-small") || same_text(
        name,
        "bgesmallenv15",
    ) {
        Some(LocalModel::BGESmallENV15)
    } else if same_text(name, "bge-base-en-v1.5") || same_text(name, "bge-base") || same_text(
        name,
        "bgebaseenv15",
    ) {
        Some(LocalModel::BGEBaseENV15)
    } else if same_text(name, "all-minilm-l12-v2") || same_text(name, "minilm-l12") {
        Some(LocalModel::AllMiniLML12V2)
    } else {
        None
    }
}

/// Whether a setting names a model that is known.
pub fn is_known(name: &str) -> (r: bool)
    ensures
        r == (model_named(lowered(trim(name@))) is Some),
{
    let t = trimmed(name);
    let low = lower(t.as_str());
    known_model(low.as_str()).is_some()
}

/// The model and the dimension that a setting stands for. A name that is not
/// known stands for the default model.
pub fn resolve_model(name: &str) -> (r: (LocalModel, usize))
    ensures
        r.0 == match model_named(lowered(trim(name@))) {
            Some(m) => m,
            None => LocalModel::AllMiniLML6V2,
        },
        r.1 == model_dim(r.0),
{
    let t = trimmed(name);
    let low = lower(t.as_str());
    let m = match known_model(low.as_str()) {
        Some(m) => m,
        None => LocalModel::AllMiniLML6V2,
    };
    let dim: usize = match m {
        LocalModel::BGEBaseENV15 => 768,
        _ => 384,
    };
    (m, dim)
}

/// The name of a local model for the log.
pub fn local_name(label: &str) -> (r: String)
    ensures
        r@ == "fastembed:"@ + label@,
{
    let mut r = "fastembed:".to_owned();
    r.push_str(label);
    r
}

} // verus!
