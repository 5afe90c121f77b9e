//! The documents and the tokenizer.
use vstd::prelude::*;

use crate::rng::{advanced, advanced_by, exchanged, output, shuffled, Rng};
use crate::text::{chars_of, docs_of, parse_docs, texts};

verus! {

/// How many documents are held out from training by default.
pub const N_EVAL_DOCS: usize = 1000;

/// The characters stand in ascending order, each once.
pub open spec fn ascending(v: Seq<char>) -> bool {
    forall|i: int, j: int| 0 <= i < j < v.len() ==> v[i] < v[j]
}

/// The character occurs in a document.
pub open spec fn occurs(docs: Seq<Seq<char>>, c: char) -> bool {
    exists|d: int| 0 <= d < docs.len() && (#[trigger] docs[d]).contains(c)
}

/// The characters that occur in the documents, in ascending order.
pub open spec fn is_vocabulary(v: Seq<char>, docs: Seq<Seq<char>>) -> bool {
    &&& ascending(v)
    &&& forall|c: char| #[trigger] v.contains(c) <==> occurs(docs, c)
}

/// Every character of a document is in the vocabulary.
pub open spec fn covers(v: Seq<char>, doc: Seq<char>) -> bool {
    forall|i: int| 0 <= i < doc.len() ==> v.contains(#[trigger] doc[i])
}

/// The tokens of a document: the boundary token, the index of each character, the boundary token.
pub open spec fn tokens_of(v: Seq<char>, doc: Seq<char>) -> Seq<usize> {
    let bos = v.len() as usize;
    seq![bos] + Seq::new(doc.len(), |i: int| v.index_of(doc[i]) as usize) + seq![bos]
}

/// How many documents are trained on: all but the last `n_eval`, and at least one.
pub open spec fn train_count(n_docs: int, n_eval: int) -> int {
    if n_docs - n_eval >= 1 {
        n_docs - n_eval
    } else {
        1
    }
}

/// The documents and the tokenizer that they give.
pub struct Dataset {
    /// The documents: `docs[..n_train]` are trained on, `docs[n_train..]` are held out.
    pub docs: Vec<String>,
    /// How many documents are trained on.
    pub n_train: usize,
    /// The distinct characters in ascending order; the index is the token.
    pub uchars: Vec<char>,
    /// The token that marks the beginning and the end of a document.
    pub bos: usize,
}

/// An ascending sequence of characters is no longer than there are characters.
pub proof fn lemma_ascending_bound(v: Seq<char>, i: int)
    requires
        ascending(v),
        0 <= i < v.len(),
    ensures
        i <= v[i] as int,
        i <= 0x10FFFF,
    decreases i,
{
    lemma_char_bound(v[i]);
    if i > 0 {
        lemma_ascending_bound(v, i - 1);
        assert(v[i - 1] < v[i]);
    }
}

/// A character is a number of at most 21 bits.
proof fn lemma_char_bound(c: char)
    ensures
        0 <= c as int <= 0x10FFFF,
{
}

/// The index of an entry of an ascending sequence.
pub proof fn lemma_ascending_index(v: Seq<char>, i: int)
    requires
        ascending(v),
        0 <= i < v.len(),
    ensures
        v.index_of(v[i]) == i,
{
    let k = v.index_of(v[i]);
    assert(0 <= k < v.len() && v[k] == v[i]) by {
        assert(v.contains(v[i]));
    }
    if k < i {
        assert(v[k] < v[i]);
    } else if i < k {
        assert(v[i] < v[k]);
    }
}

/// Where a character stands in an ascending vector, or where it would have to be inserted.
fn find(v: &[char], c: char) -> (r: Result<usize, usize>)
    requires
        ascending(v@),
    ensures
        match r {
            Ok(i) => i < v@.len() && v@[i as int] == c,
            Err(i) => i <= v@.len() && (forall|k: int| 0 <= k < i ==> #[trigger] v@[k] < c) && (
            forall|k: int| i <= k < v@.len() ==> c < #[trigger] v@[k]),
        },
{
    let mut lo: usize = 0;
    let mut hi: usize = v.len();
    while lo < hi
        invariant
            ascending(v@),
            lo <= hi <= v.len(),
            forall|k: int| 0 <= k < lo ==> #[trigger] v@[k] < c,
            forall|k: int| hi <= k < v@.len() ==> c < #[trigger] v@[k],
        decreases hi - lo,
    {
        let mid: usize = lo + (hi - lo) / 2;
        let x = v[mid];
        if x == c {
            return Ok(mid);
        }
        if x < c {
            assert forall|k: int| 0 <= k < mid + 1 implies #[trigger] v@[k] < c by {
                if k < mid {
                    assert(v@[k] < v@[mid as int]);
                }
            }
            lo = mid + 1;
        } else {
            assert forall|k: int| mid <= k < v@.len() implies c < #[trigger] v@[k] by {
                if mid < k {
                    assert(v@[mid as int] < v@[k]);
                }
            }
            hi = mid;
        }
    }
    Err(lo)
}

/// Adds a character to an ascending vector, unless it is there.
fn add_char(v: &mut Vec<char>, c: char)
    requires
        ascending(old(v)@),
    ensures
        ascending(final(v)@),
        forall|x: char| #[trigger] final(v)@.contains(x) <==> old(v)@.contains(x) || x == c,
{
    match find(v.as_slice(), c) {
        Ok(i) => {
            assert(v@[i as int] == c);
        },
        Err(i) => {
            let ghost before = v@;
            v.insert(i, c);
            proof {
                assert(v@[i as int] == c);
                assert forall|x: char| #[trigger] v@.contains(x) <==> before.contains(x) || x
                    == c by {
                    if before.contains(x) {
                        let k = choose|k: int| 0 <= k < before.len() && before[k] == x;
                        if k < i {
                            assert(v@[k] == x);
                        } else {
                            assert(v@[k + 1] == x);
                        }
                    }
                    if v@.contains(x) && x != c {
                        let k = choose|k: int| 0 <= k < v@.len() && v@[k] == x;
                        if k < i {
                            assert(before[k] == x);
                        } else {
                            assert(before[k - 1] == x);
                        }
                    }
                }
            }
        },
    }
}

/// The distinct characters of the documents, in ascending order.
fn vocabulary(docs: &Vec<String>) -> (v: Vec<char>)
    ensures
        is_vocabulary(v@, texts(docs@)),
{
    let mut v: Vec<char> = Vec::new();
    let n: usize = docs.len();
    let ghost all = texts(docs@);
    let mut d: usize = 0;
    while d < n
        invariant
            d <= n,
            n == docs@.len(),
            all == texts(docs@),
            is_vocabulary(v@, all.take(d as int)),
        decreases n - d,
    {
        let chars = chars_of(docs[d].as_str());
        let m: usize = chars.len();
        let ghost before = v@;
        let mut i: usize = 0;
        while i < m
            invariant
                i <= m,
                m == chars@.len(),
                ascending(v@),
                forall|c: char| #[trigger] v@.contains(c) <==> before.contains(c) || chars@.take(
                    i as int,
                ).contains(c),
            decreases m - i,
        {
            let ghost earlier = v@;
            add_char(&mut v, chars[i]);
            proof {
                let (a, b) = (chars@.take(i as int), chars@.take(i + 1));
                assert(b =~= a.push(chars@[i as int]));
                assert forall|c: char| #[trigger] v@.contains(c) <==> before.contains(c)
                    || b.contains(c) by {
                    assert(earlier.contains(c) <==> before.contains(c) || a.contains(c));
                    if a.contains(c) {
                        let k = choose|k: int| 0 <= k < a.len() && a[k] == c;
                        assert(b[k] == c);
                    }
                    if b.contains(c) {
                        let k = choose|k: int| 0 <= k < b.len() && b[k] == c;
                        if k < i {
                            assert(a[k] == c);
                        }
                    }
                    assert(b[i as int] == chars@[i as int]);
                }
            }
            i = i + 1;
        }
        proof {
            let (a, b) = (all.take(d as int), all.take(d + 1));
            assert(chars@.take(m as int) =~= chars@);
            assert(chars@ == all[d as int]);
            assert forall|c: char| #[trigger] v@.contains(c) <==> occurs(b, c) by {
                assert(before.contains(c) <==> occurs(a, c));
                if occurs(a, c) {
                    let k = choose|k: int| 0 <= k < a.len() && (#[trigger] a[k]).contains(c);
                    assert(b[k].contains(c));
                }
                if chars@.contains(c) {
                    assert(b[d as int].contains(c));
                }
                if occurs(b, c) {
                    let k = choose|k: int| 0 <= k < b.len() && (#[trigger] b[k]).contains(c);
                    if k < d {
                        assert(a[k].contains(c));
                    }
                }
            }
        }
        d = d + 1;
    }
    proof {
        assert(all.take(n as int) =~= all);
    }
    v
}

impl Dataset {
    /// The tokenizer fits the documents.
    pub open spec fn wf(self) -> bool {
        &&& is_vocabulary(self.uchars@, texts(self.docs@))
        &&& self.bos == self.uchars@.len()
        &&& self.n_train >= 1
    }

    /// The dataset of some documents, of which the last `n_eval` are held out; at least one is
    /// kept for training.
    pub fn new(docs: Vec<String>, n_eval: usize) -> (r: Self)
        ensures
            r.wf(),
            r.docs == docs,
            r.n_train == train_count(docs@.len() as int, n_eval as int),
    {
        let uchars = vocabulary(&docs);
        let bos: usize = uchars.len();
        let kept: usize = docs.len().saturating_sub(n_eval);
        let n_train: usize = if kept >= 1 {
            kept
        } else {
            1
        };
        Dataset { docs, n_train, uchars, bos }
    }

    /// The dataset in a text of one document per line, shuffled.
    pub fn from_text(text: &str, rng: &mut Rng) -> (r: Self)
        ensures
            r.wf(),
            texts(r.docs@) == shuffled(
                docs_of(text@),
                old(rng).s@,
                docs_of(text@).len() - 1,
            ),
            r.n_train == train_count(docs_of(text@).len() as int, N_EVAL_DOCS as int),
            final(rng).s@ == advanced_by(old(rng).s@, docs_of(text@).len() - 1),
    {
        let mut docs = parse_docs(text);
        let ghost parsed = docs@;
        rng.shuffle(docs.as_mut_slice());
        proof {
            lemma_shuffle_texts(parsed, old(rng).s@, parsed.len() - 1);
        }
        Dataset::new(docs, N_EVAL_DOCS)
    }

    /// The held-out documents.
    pub fn eval_docs(&self) -> (r: &[String])
        requires
            self.n_train <= self.docs@.len(),
        ensures
            r@ == self.docs@.subrange(self.n_train as int, self.docs@.len() as int),
    {
        &self.docs.as_slice()[self.n_train..self.docs.len()]
    }

    /// How many tokens there are: one per character, and the boundary token.
    pub fn vocab_size(&self) -> (r: usize)
        requires
            self.wf(),
        ensures
            r == self.uchars@.len() + 1,
            r <= 0x110001,
    {
        proof {
            if self.uchars@.len() > 0 {
                lemma_ascending_bound(self.uchars@, self.uchars@.len() - 1);
            }
        }
        self.uchars.len() + 1
    }

    /// Writes the tokens of a document to `out`: the boundary token, the characters, the boundary
    /// token.
    pub fn tokenize(&self, doc: &str, out: &mut Vec<usize>)
        requires
            self.wf(),
            covers(self.uchars@, doc@),
        ensures
            final(out)@ == tokens_of(self.uchars@, doc@),
    {
        out.clear();
        out.push(self.bos);
        let chars = chars_of(doc);
        let n: usize = chars.len();
        let ghost target = tokens_of(self.uchars@, doc@);
        let mut i: usize = 0;
        while i < n
            invariant
                self.wf(),
                i <= n,
                n == doc@.len(),
                chars@ == doc@,
                covers(self.uchars@, doc@),
                target == tokens_of(self.uchars@, doc@),
                out@ == target.take(i + 1),
            decreases n - i,
        {
            let c = chars[i];
            proof {
                assert(self.uchars@.contains(doc@[i as int]));
            }
            match find(self.uchars.as_slice(), c) {
                Ok(k) => {
                    proof {
                        lemma_ascending_index(self.uchars@, k as int);
                        assert(target.take(i + 2) =~= target.take(i + 1).push(k));
                    }
                    out.push(k);
                },
                Err(k) => {
                    proof {
                        let q = choose|q: int|
                            0 <= q < self.uchars@.len() && self.uchars@[q] == c;
                        assert(self.uchars@[q] == c);
                    }
                },
            }
            i = i + 1;
        }
        out.push(self.bos);
        assert(out@ =~= target);
    }
}

/// The texts of shuffled documents are the shuffled texts.
proof fn lemma_shuffle_texts(docs: Seq<String>, s: Seq<u64>, i: int)
    requires
        i < docs.len(),
    ensures
        texts(shuffled(docs, s, i)) == shuffled(texts(docs), s, i),
        shuffled(docs, s, i).len() == docs.len(),
    decreases i,
{
    if i > 0 {
        let j = output(s) as int % (i + 1);
        let next = exchanged(docs, i, j);
        assert(texts(next) =~= exchanged(texts(docs), i, j));
        lemma_shuffle_texts(next, advanced(s), i - 1);
    }
}

} // verus!
