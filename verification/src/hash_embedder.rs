//! A key-free embedder: a text is counted into a fixed number of buckets by hashes of its words,
//! word pairs and character windows. The counts are scaled to a unit vector by the caller.

use vstd::prelude::*;
use vstd::utf8::encode_utf8;

use crate::text::{
    chars_of, concat3, is_alphanumeric, push_char, split_pieces, string_of_range, to_lowercase,
};
#[allow(unused_imports)]
use crate::text::{alphanumeric, lowercase, pieces, texts};

verus! {

/// The number of buckets.
pub const DIMENSIONS: usize = 384;

// ---------------------------------------------------------------------------
// Hashing
// ---------------------------------------------------------------------------

/// One step of the FNV-1a hash.
pub open spec fn fnv_step(h: u64, b: u8) -> u64 {
    (h ^ (b as u64)).wrapping_mul(0x100000001b3)
}

/// The FNV-1a hash of bytes.
pub open spec fn fnv_bytes(bytes: Seq<u8>) -> u64
    decreases bytes.len(),
{
    if bytes.len() == 0 {
        0xcbf29ce484222325
    } else {
        fnv_step(fnv_bytes(bytes.drop_last()), bytes.last())
    }
}

/// The FNV-1a hash of the UTF-8 bytes of a text.
pub open spec fn fnv(s: Seq<char>) -> u64 {
    fnv_bytes(encode_utf8(s))
}

/// The 64-bit FNV-1a hash of a text.
pub fn fnv1a(s: &str) -> (r: u64)
    ensures
        r == fnv(s@),
{
    let bytes = s.as_bytes();
    let n = bytes.len();
    let mut h: u64 = 0xcbf29ce484222325;
    let mut i: usize = 0;
    while i < n
        invariant
            i <= n,
            n == bytes@.len(),
            h == fnv_bytes(bytes@.take(i as int)),
        decreases n - i,
    {
        proof {
            assert(bytes@.take(i + 1).drop_last() =~= bytes@.take(i as int));
            assert(bytes@.take(i + 1).last() == bytes@[i as int]);
        }
        let b: u8 = bytes[i];
        h = (h ^ (b as u64)).wrapping_mul(0x100000001b3);
        i += 1;
    }
    proof {
        assert(bytes@.take(n as int) =~= bytes@);
    }
    h
}

// ---------------------------------------------------------------------------
// Tokens
// ---------------------------------------------------------------------------

/// The text in lower case with a blank for everything but letters and digits.
pub open spec fn cleaned(text: Seq<char>) -> Seq<char> {
    lowercase(text).map_values(
        |c: char|
            if alphanumeric(c) {
                c
            } else {
                ' '
            },
    )
}

/// Neighbouring words with a blank between them.
pub open spec fn word_pairs(words: Seq<Seq<char>>) -> Seq<Seq<char>> {
    Seq::new(
        if words.len() > 0 {
            (words.len() - 1) as nat
        } else {
            0
        },
        |i: int| words[i] + " "@ + words[i + 1],
    )
}

/// The text without its blanks.
pub open spec fn compacted(s: Seq<char>) -> Seq<char>
    decreases s.len(),
{
    if s.len() == 0 {
        Seq::empty()
    } else if s.last() == ' ' {
        compacted(s.drop_last())
    } else {
        compacted(s.drop_last()).push(s.last())
    }
}

/// All runs of `n` characters.
pub open spec fn windows(s: Seq<char>, n: nat) -> Seq<Seq<char>> {
    Seq::new(
        if s.len() >= n {
            (s.len() - n + 1) as nat
        } else {
            0
        },
        |i: int| s.subrange(i, i + n),
    )
}

/// The words of a text, its word pairs, and the runs of two and of three characters across them.
pub open spec fn tokens_of(text: Seq<char>) -> Seq<Seq<char>> {
    let c = cleaned(text);
    let words = pieces(c, ' ');
    words + word_pairs(words) + windows(compacted(c), 2) + windows(compacted(c), 3)
}

fn clean(text: &str) -> (r: String)
    ensures
        r@ == cleaned(text@),
{
    let low = to_lowercase(text);
    let mut out = String::new();
    for c in it: low.chars()
        invariant
            it.seq() == low@,
            low@ == lowercase(text@),
            out@ == cleaned(text@).take(it.index()),
    {
        proof {
            let i = it.index();
            assert(cleaned(text@).take(i + 1) =~= cleaned(text@).take(i).push(
                cleaned(text@)[i],
            ));
        }
        if is_alphanumeric(c) {
            push_char(&mut out, c);
        } else {
            push_char(&mut out, ' ');
        }
    }
    proof {
        assert(cleaned(text@).take(low@.len() as int) =~= cleaned(text@));
    }
    out
}

fn push_pairs(words: &Vec<String>, out: &mut Vec<String>)
    ensures
        texts(final(out)@) == texts(old(out)@) + word_pairs(texts(words@)),
{
    let n = words.len();
    let ghost start = texts(out@);
    let ghost ws = texts(words@);
    let mut i: usize = 1;
    proof {
        assert(start + word_pairs(ws).take(0) =~= start);
    }
    while i < n
        invariant
            1 <= i,
            i <= n || (n == 0 && i == 1),
            n == words@.len(),
            ws == texts(words@),
            texts(out@) == start + word_pairs(ws).take(i - 1),
        decreases n - i,
    {
        let ghost before = out@;
        let pair = concat3(words[i - 1].as_str(), " ", words[i].as_str());
        out.push(pair);
        proof {
            assert(pair@ == word_pairs(ws)[i - 1]);
            assert(texts(out@) =~= texts(before).push(pair@));
            assert(texts(out@) =~= start + word_pairs(ws).take(i as int));
        }
        i += 1;
    }
    proof {
        assert(word_pairs(ws).take(i - 1) =~= word_pairs(ws));
    }
}

fn compact(s: &str) -> (r: Vec<char>)
    ensures
        r@ == compacted(s@),
{
    let chars = chars_of(s);
    let n = chars.len();
    let mut out: Vec<char> = Vec::new();
    let mut i: usize = 0;
    while i < n
        invariant
            i <= n,
            n == chars@.len(),
            out@ == compacted(chars@.take(i as int)),
        decreases n - i,
    {
        proof {
            assert(chars@.take(i + 1).drop_last() =~= chars@.take(i as int));
        }
        if chars[i] != ' ' {
            out.push(chars[i]);
        }
        i += 1;
    }
    proof {
        assert(chars@.take(n as int) =~= chars@);
    }
    out
}

fn push_windows(s: &Vec<char>, n: usize, out: &mut Vec<String>)
    requires
        0 < n <= 3,
    ensures
        texts(final(out)@) == texts(old(out)@) + windows(s@, n as nat),
{
    let len = s.len();
    let ghost start = texts(out@);
    let ghost ws = windows(s@, n as nat);
    if len < n {
        proof {
            assert(start + ws =~= start);
        }
        return;
    }
    let count: usize = len - n + 1;
    let mut i: usize = 0;
    proof {
        assert(start + ws.take(0) =~= start);
    }
    while i < count
        invariant
            i <= count,
            count == len - n + 1,
            len == s@.len(),
            0 < n <= 3,
            n <= len,
            ws == windows(s@, n as nat),
            texts(out@) == start + ws.take(i as int),
        decreases count - i,
    {
        let ghost before = out@;
        let w = string_of_range(s, i, i + n);
        out.push(w);
        proof {
            assert(w@ == ws[i as int]);
            assert(texts(out@) =~= texts(before).push(w@));
            assert(texts(out@) =~= start + ws.take(i + 1));
        }
        i += 1;
    }
    proof {
        assert(ws.take(count as int) =~= ws);
    }
}

/// The tokens of a text: its words in lower case, neighbouring words together, and overlapping
/// runs of two and three characters, so that related words still share tokens.
pub fn tokens(text: &str) -> (r: Vec<String>)
    ensures
        texts(r@) == tokens_of(text@),
{
    let c = clean(text);
    let words = split_pieces(c.as_str(), ' ');
    let n = words.len();
    let mut out: Vec<String> = Vec::new();
    let mut i: usize = 0;
    while i < n
        invariant
            i <= n,
            n == words@.len(),
            out@.len() == i,
            forall|k: int| 0 <= k < i ==> (#[trigger] out@[k])@ == words@[k]@,
        decreases n - i,
    {
        out.push(words[i].clone());
        i += 1;
    }
    proof {
        assert(texts(out@) =~= texts(words@));
    }
    push_pairs(&words, &mut out);
    let letters = compact(c.as_str());
    push_windows(&letters, 2, &mut out);
    push_windows(&letters, 3, &mut out);
    out
}

// ---------------------------------------------------------------------------
// The embedder
// ---------------------------------------------------------------------------

/// The bucket of a token.
pub open spec fn bucket(token: Seq<char>, dim: nat) -> int {
    fnv(token) as int % dim as int
}

/// How many tokens fall into a bucket.
pub open spec fn bucket_count(tokens: Seq<Seq<char>>, dim: nat, b: int) -> nat
    decreases tokens.len(),
{
    if tokens.len() == 0 {
        0
    } else {
        bucket_count(tokens.drop_last(), dim, b) + if bucket(tokens.last(), dim) == b {
            1nat
        } else {
            0nat
        }
    }
}

/// A deterministic hashing embedder of fixed dimension.
pub struct HashEmbedder {
    dim: usize,
}

impl HashEmbedder {
    #[verifier::type_invariant]
    pub closed spec fn wf(self) -> bool {
        self.dim > 0
    }

    pub closed spec fn dim(self) -> nat {
        self.dim as nat
    }

    pub fn new() -> (r: Self)
        ensures
            r.dim() == DIMENSIONS,
    {
        HashEmbedder { dim: DIMENSIONS }
    }

    pub fn dimensions(&self) -> (r: usize)
        ensures
            r == self.dim(),
    {
        self.dim
    }

    /// How many tokens of a text fall into each bucket.
    pub fn counts(&self, text: &str) -> (r: Vec<u64>)
        ensures
            r@.len() == self.dim(),
            forall|b: int|
                0 <= b < r@.len() ==> #[trigger] r@[b] == bucket_count(
                    tokens_of(text@),
                    self.dim(),
                    b,
                ),
    {
        proof {
            use_type_invariant(self);
        }
        let dim = self.dim;
        let mut v: Vec<u64> = Vec::new();
        let mut i: usize = 0;
        while i < dim
            invariant
                i <= dim,
                v@.len() == i,
                forall|b: int| 0 <= b < i ==> #[trigger] v@[b] == 0,
            decreases dim - i,
        {
            v.push(0);
            i += 1;
        }
        let ts = tokens(text);
        let n = ts.len();
        let ghost all = texts(ts@);
        let mut j: usize = 0;
        while j < n
            invariant
                j <= n,
                n == ts@.len(),
                all == texts(ts@),
                dim > 0,
                v@.len() == dim,
                forall|b: int|
                    0 <= b < dim ==> #[trigger] v@[b] == bucket_count(
                        all.take(j as int),
                        dim as nat,
                        b,
                    ) && v@[b] <= j,
            decreases n - j,
        {
            proof {
                assert(all.take(j + 1).drop_last() =~= all.take(j as int));
                assert(all.take(j + 1).last() == ts@[j as int]@);
            }
            let idx = (fnv1a(ts[j].as_str()) % (dim as u64)) as usize;
            let c = v[idx];
            v.set(idx, c + 1);
            j += 1;
        }
        proof {
            assert(all.take(n as int) =~= all);
        }
        v
    }
}

impl Default for HashEmbedder {
    fn default() -> (r: Self)
        ensures
            r.dim() == DIMENSIONS,
    {
        HashEmbedder::new()
    }
}

pub open spec fn count_sum(counts: Seq<nat>) -> nat
    decreases counts.len(),
{
    if counts.len() == 0 {
        0
    } else {
        count_sum(counts.drop_last()) + counts.last()
    }
}

proof fn lemma_sum_zero(counts: Seq<nat>)
    requires
        forall|b: int| 0 <= b < counts.len() ==> #[trigger] counts[b] == 0,
    ensures
        count_sum(counts) == 0,
    decreases counts.len(),
{
    if counts.len() > 0 {
        lemma_sum_zero(counts.drop_last());
        assert(counts[counts.len() - 1] == 0);
    }
}

proof fn lemma_sum_step(a: Seq<nat>, b: Seq<nat>, at: int)
    requires
        a.len() == b.len(),
        0 <= at < a.len(),
        forall|i: int| 0 <= i < a.len() ==> #[trigger] b[i] == a[i] + if i == at {
            1int
        } else {
            0int
        },
    ensures
        count_sum(b) == count_sum(a) + 1,
    decreases a.len(),
{
    let n = a.len() - 1;
    assert(b[n] == a[n] + if n == at {
        1int
    } else {
        0int
    });
    if at < n {
        assert forall|i: int| 0 <= i < a.drop_last().len() implies #[trigger] b.drop_last()[i]
            == a.drop_last()[i] + if i == at {
            1int
        } else {
            0int
        } by {
            assert(b[i] == a[i] + if i == at {
                1int
            } else {
                0int
            });
        }
        lemma_sum_step(a.drop_last(), b.drop_last(), at);
    } else {
        assert(a.drop_last() =~= b.drop_last()) by {
            assert forall|i: int| 0 <= i < n implies a[i] == b[i] by {
                assert(b[i] == a[i] + 0);
            }
        }
    }
}

/// The counts of all buckets.
pub open spec fn all_counts(tokens: Seq<Seq<char>>, dim: nat) -> Seq<nat> {
    Seq::new(dim, |b: int| bucket_count(tokens, dim, b))
}

/// Every token is counted, in exactly one bucket.
pub proof fn every_token_is_counted_once(tokens: Seq<Seq<char>>, dim: nat)
    requires
        dim > 0,
    ensures
        count_sum(all_counts(tokens, dim)) == tokens.len(),
    decreases tokens.len(),
{
    if tokens.len() == 0 {
        lemma_sum_zero(all_counts(tokens, dim));
    } else {
        let d = tokens.drop_last();
        every_token_is_counted_once(d, dim);
        lemma_sum_step(all_counts(d, dim), all_counts(tokens, dim), bucket(tokens.last(), dim));
    }
}

} // verus!
