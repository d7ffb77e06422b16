use vstd::prelude::*;
use crate::chunker::Chunk;

verus! {

/// Why an index could not be built.
#[derive(Debug, Clone, Copy, PartialEq, Eq, Structural)]
pub enum IndexError {
    /// There is not exactly one vector per chunk.
    CountMismatch,
    /// The vector at `position` has `found` components where earlier ones had `expected`.
    DimensionMismatch { position: usize, expected: usize, found: usize },
}

/// The vector of one chunk.
pub struct Embedding<T> {
    /// The `index` of the chunk this vector stands for.
    pub chunk_index: usize,
    pub vector: Vec<T>,
}

/// The stored chunks and their vectors, built once and then only read.
pub struct VectorIndex<T> {
    chunks: Vec<Chunk>,
    embeddings: Vec<Embedding<T>>,
    dimension: usize,
}

/// Every vector before position `p` has as many components as the first one.
pub open spec fn dims_agree_before<T>(vs: Seq<Vec<T>>, p: int) -> bool {
    forall|q: int| 0 <= q < p ==> #[trigger] vs[q]@.len() == vs[0]@.len()
}

/// Entry `a` ranks before entry `b`: a higher score first, then the lower chunk index,
/// then the earlier position.
pub open spec fn ranks_before(scores: Seq<u64>, keys: Seq<usize>, a: int, b: int) -> bool {
    ||| scores[a] > scores[b]
    ||| scores[a] == scores[b] && keys[a] < keys[b]
    ||| scores[a] == scores[b] && keys[a] == keys[b] && a < b
}

/// `p` occurs in `r`.
pub open spec fn listed(r: Seq<usize>, p: int) -> bool {
    exists|b: int| 0 <= b < r.len() && r[b] == p
}

/// The smaller of `k` and `n`.
pub open spec fn min_len(k: int, n: int) -> int {
    if k < n {
        k
    } else {
        n
    }
}

/// `r` lists the `min(k, n)` best-ranked of the `n` entries, best first.
pub open spec fn is_ranking(scores: Seq<u64>, keys: Seq<usize>, k: int, r: Seq<usize>) -> bool {
    let n = scores.len() as int;
    &&& r.len() == min_len(k, n)
    &&& forall|a: int| 0 <= a < r.len() ==> #[trigger] r[a] < n
    &&& forall|a: int, b: int|
        0 <= a < b < r.len() ==> ranks_before(scores, keys, #[trigger] r[a] as int, #[trigger] r[b] as int)
    &&& forall|a: int, p: int|
        #![trigger r[a], listed(r, p)]
        0 <= a < r.len() && 0 <= p < n && !listed(r, p) ==> ranks_before(scores, keys, r[a] as int, p)
}

/// The result of a query: the `min(k, n)` best-ranked entries, best first.
pub open spec fn ranking(scores: Seq<u64>, keys: Seq<usize>, k: int) -> Seq<usize> {
    choose|r: Seq<usize>| is_ranking(scores, keys, k, r)
}

/// A query's result is determined by the scores, the chunk indices and `k`: any two lists
/// that meet the ranking's description are the same list, tie-break order included.
pub proof fn lemma_ranking_unique(
    scores: Seq<u64>,
    keys: Seq<usize>,
    k: int,
    r1: Seq<usize>,
    r2: Seq<usize>,
)
    requires
        keys.len() == scores.len(),
        is_ranking(scores, keys, k, r1),
        is_ranking(scores, keys, k, r2),
    ensures
        r1 == r2,
{
    assert forall|i: int| 0 <= i < r1.len() implies r1[i] == r2[i] by {
        lemma_ranking_agree_upto(scores, keys, k, r1, r2, i);
    }
    assert(r1 =~= r2);
}

proof fn lemma_ranking_agree_upto(
    scores: Seq<u64>,
    keys: Seq<usize>,
    k: int,
    r1: Seq<usize>,
    r2: Seq<usize>,
    i: int,
)
    requires
        keys.len() == scores.len(),
        is_ranking(scores, keys, k, r1),
        is_ranking(scores, keys, k, r2),
        0 <= i < r1.len(),
    ensures
        forall|j: int| 0 <= j <= i ==> r1[j] == r2[j],
    decreases i,
{
    if i > 0 {
        lemma_ranking_agree_upto(scores, keys, k, r1, r2, i - 1);
    }
    let x = r1[i] as int;
    let y = r2[i] as int;
    if x != y {
        lemma_ranking_first_diff(scores, keys, k, r1, r2, i);
        lemma_ranking_first_diff(scores, keys, k, r2, r1, i);
    }
}

/// Where two rankings first differ, the first one's entry cannot rank before the second's.
proof fn lemma_ranking_first_diff(
    scores: Seq<u64>,
    keys: Seq<usize>,
    k: int,
    r1: Seq<usize>,
    r2: Seq<usize>,
    i: int,
)
    requires
        keys.len() == scores.len(),
        is_ranking(scores, keys, k, r1),
        is_ranking(scores, keys, k, r2),
        0 <= i < r1.len(),
        forall|j: int| 0 <= j < i ==> r1[j] == r2[j],
        r1[i] != r2[i],
    ensures
        !ranks_before(scores, keys, r1[i] as int, r2[i] as int),
{
    let x = r1[i] as int;
    let y = r2[i] as int;
    if ranks_before(scores, keys, x, y) {
        if listed(r2, x) {
            let b = choose|b: int| 0 <= b < r2.len() && r2[b] == x;
            if b < i {
                assert(r1[b] == x);
                assert(ranks_before(scores, keys, r1[b] as int, r1[i] as int));
            } else {
                assert(b != i);
                assert(ranks_before(scores, keys, r2[i] as int, r2[b] as int));
            }
        } else {
            assert(r2[i] < scores.len());
            assert(ranks_before(scores, keys, r2[i] as int, x));
        }
    }
}

impl<T> VectorIndex<T> {
    /// The stored chunks, in order.
    pub closed spec fn chunk_seq(&self) -> Seq<Chunk> {
        self.chunks@
    }

    /// The stored embeddings, position for position with the chunks.
    pub closed spec fn embedding_seq(&self) -> Seq<Embedding<T>> {
        self.embeddings@
    }

    /// The number of components of every stored vector.
    pub closed spec fn dim(&self) -> nat {
        self.dimension as nat
    }

    /// The chunk index of each stored entry, by position.
    pub open spec fn keys(&self) -> Seq<usize> {
        Seq::new(self.embedding_seq().len(), |i: int| self.embedding_seq()[i].chunk_index)
    }

    /// One embedding per chunk, carrying that chunk's index, all of one dimension.
    pub open spec fn wf(&self) -> bool {
        &&& self.embedding_seq().len() == self.chunk_seq().len()
        &&& forall|i: int|
            0 <= i < self.chunk_seq().len() ==> {
                &&& #[trigger] self.embedding_seq()[i].chunk_index == self.chunk_seq()[i].index
                &&& self.embedding_seq()[i].vector@.len() == self.dim()
            }
    }

    /// Pairs each chunk with the vector at the same position. Fails when the counts differ,
    /// or at the first vector whose length differs from the first vector's.
    pub fn build(chunks: Vec<Chunk>, vectors: Vec<Vec<T>>) -> (r: Result<Self, IndexError>)
        ensures
            vectors.len() != chunks.len() ==> r == Err::<Self, IndexError>(
                IndexError::CountMismatch,
            ),
            vectors.len() == chunks.len() && dims_agree_before(vectors@, vectors.len() as int)
                ==> r is Ok,
            vectors.len() == chunks.len() ==> forall|p: int|
                0 <= p < vectors.len() && dims_agree_before(vectors@, p) && vectors@[p]@.len()
                    != vectors@[0]@.len() ==> r == Err::<Self, IndexError>(
                    IndexError::DimensionMismatch {
                        position: p as usize,
                        expected: vectors@[0]@.len() as usize,
                        found: vectors@[p]@.len() as usize,
                    },
                ),
            r matches Ok(idx) ==> {
                &&& idx.wf()
                &&& idx.chunk_seq() == chunks@
                &&& idx.embedding_seq().len() == vectors.len()
                &&& forall|i: int|
                    0 <= i < vectors.len() ==> #[trigger] idx.embedding_seq()[i].vector@
                        == vectors@[i]@
            },
    {
        let n = chunks.len();
        if vectors.len() != n {
            return Err(IndexError::CountMismatch);
        }
        let dimension: usize = if n == 0 {
            0
        } else {
            vectors[0].len()
        };
        let mut p: usize = 0;
        while p < n
            invariant
                p <= n == vectors.len() == chunks.len(),
                n > 0 ==> dimension == vectors@[0]@.len(),
                dims_agree_before(vectors@, p as int),
            decreases n - p,
        {
            if vectors[p].len() != dimension {
                let found = vectors[p].len();
                proof {
                    assert forall|q: int|
                        0 <= q < vectors.len() && dims_agree_before(vectors@, q)
                            && vectors@[q]@.len() != vectors@[0]@.len() implies q == p by {
                        if q < p {
                            assert(vectors@[q]@.len() == vectors@[0]@.len());
                        } else if q > p {
                            assert(vectors@[p as int]@.len() == vectors@[0]@.len());
                        }
                    }
                }
                return Err(IndexError::DimensionMismatch { position: p, expected: dimension, found });
            }
            p = p + 1;
        }
        let ghost orig = vectors@;
        let mut rest = vectors;
        let mut embeddings: Vec<Embedding<T>> = Vec::new();
        let mut j: usize = n;
        while j > 0
            invariant
                j <= n == chunks.len() == orig.len(),
                rest@ == orig.subrange(0, j as int),
                embeddings@.len() == n - j,
                dims_agree_before(orig, n as int),
                n > 0 ==> dimension == orig[0]@.len(),
                forall|i: int|
                    0 <= i < n - j ==> {
                        &&& #[trigger] embeddings@[i].chunk_index == chunks@[j + i].index
                        &&& embeddings@[i].vector@ == orig[j + i]@
                    },
            decreases j,
        {
            let v = rest.pop().unwrap();
            let ghost before = embeddings@;
            embeddings.insert(0, Embedding { chunk_index: chunks[j - 1].index, vector: v });
            proof {
                assert(rest@ =~= orig.subrange(0, j - 1));
                assert forall|i: int| 0 <= i < n - j + 1 implies {
                    &&& #[trigger] embeddings@[i].chunk_index == chunks@[j - 1 + i].index
                    &&& embeddings@[i].vector@ == orig[j - 1 + i]@
                } by {
                    if i > 0 {
                        assert(embeddings@[i] == before[i - 1]);
                        assert(before[i - 1].chunk_index == chunks@[j + (i - 1)].index);
                    }
                }
            }
            j = j - 1;
        }
        let idx = VectorIndex { chunks, embeddings, dimension };
        proof {
            assert forall|i: int| 0 <= i < idx.chunk_seq().len() implies {
                &&& #[trigger] idx.embedding_seq()[i].chunk_index == idx.chunk_seq()[i].index
                &&& idx.embedding_seq()[i].vector@.len() == idx.dim()
            } by {
                assert(idx.embedding_seq()[i].chunk_index == chunks@[0 + i].index);
                assert(idx.embedding_seq()[i].vector@ == orig[0 + i]@);
            }
            assert forall|i: int| 0 <= i < n implies #[trigger] idx.embedding_seq()[i].vector@
                == orig[i]@ by {
                assert(idx.embedding_seq()[i].chunk_index == chunks@[0 + i].index);
                assert(idx.embedding_seq()[i].vector@ == orig[0 + i]@);
            }
        }
        Ok(idx)
    }

    /// The number of stored entries.
    pub fn len(&self) -> (r: usize)
        ensures
            r == self.chunk_seq().len(),
    {
        self.chunks.len()
    }

    /// Whether nothing is stored.
    pub fn is_empty(&self) -> (r: bool)
        ensures
            r == (self.chunk_seq().len() == 0),
    {
        self.chunks.len() == 0
    }

    /// The number of components of every stored vector.
    pub fn dimension(&self) -> (r: usize)
        ensures
            r == self.dim(),
    {
        self.dimension
    }

    /// The stored chunks, in order.
    pub fn chunks(&self) -> (r: &Vec<Chunk>)
        ensures
            r@ == self.chunk_seq(),
    {
        &self.chunks
    }

    /// The chunk stored at `position`.
    pub fn chunk(&self, position: usize) -> (r: &Chunk)
        requires
            position < self.chunk_seq().len(),
        ensures
            *r == self.chunk_seq()[position as int],
    {
        &self.chunks[position]
    }

    /// The vector stored at `position`.
    pub fn vector(&self, position: usize) -> (r: &Vec<T>)
        requires
            self.wf(),
            position < self.chunk_seq().len(),
        ensures
            r@ == self.embedding_seq()[position as int].vector@,
    {
        &self.embeddings[position].vector
    }

    /// The positions of the `min(k, len)` entries that rank best by `scores`, best first:
    /// a higher score first, then the lower chunk index. `scores[p]` is the similarity of
    /// entry `p` to the query, as an order-preserving integer key. An empty index gives an
    /// empty result.
    pub fn query(&self, scores: &Vec<u64>, k: usize) -> (r: Vec<usize>)
        requires
            self.wf(),
            scores.len() == self.chunk_seq().len(),
        ensures
            is_ranking(scores@, self.keys(), k as int, r@),
            r@ == ranking(scores@, self.keys(), k as int),
    {
        let n = scores.len();
        let ghost keys = self.keys();
        let mut order: Vec<usize> = Vec::new();
        let mut p: usize = 0;
        while p < n
            invariant
                self.wf(),
                n == scores.len() == self.chunk_seq().len() == keys.len(),
                keys == self.keys(),
                p <= n,
                order.len() == p,
                forall|a: int| 0 <= a < order.len() ==> #[trigger] order@[a] < p,
                forall|q: int| 0 <= q < p ==> listed(order@, q),
                forall|a: int, b: int|
                    0 <= a < b < order.len() ==> ranks_before(
                        scores@,
                        keys,
                        #[trigger] order@[a] as int,
                        #[trigger] order@[b] as int,
                    ),
            decreases n - p,
        {
            let mut pos: usize = 0;
            while pos < order.len()
                && !self.before(scores, p, order[pos])
                invariant
                    self.wf(),
                    n == scores.len() == self.chunk_seq().len() == keys.len(),
                    keys == self.keys(),
                    p < n,
                    order.len() == p,
                    pos <= order.len(),
                    forall|a: int| 0 <= a < order.len() ==> #[trigger] order@[a] < p,
                    forall|a: int|
                        0 <= a < pos ==> ranks_before(
                            scores@,
                            keys,
                            #[trigger] order@[a] as int,
                            p as int,
                        ),
                decreases order.len() - pos,
            {
                pos = pos + 1;
            }
            let ghost before = order@;
            order.insert(pos, p);
            proof {
                assert forall|q: int| 0 <= q < p + 1 implies listed(order@, q) by {
                    if q < p {
                        assert(listed(before, q));
                        let b = choose|b: int| 0 <= b < before.len() && before[b] == q;
                        if b < pos {
                            assert(order@[b] == q);
                        } else {
                            assert(order@[b + 1] == q);
                        }
                    } else {
                        assert(order@[pos as int] == q);
                    }
                }
                assert forall|a: int, b: int| 0 <= a < b < order.len() implies ranks_before(
                    scores@,
                    keys,
                    #[trigger] order@[a] as int,
                    #[trigger] order@[b] as int,
                ) by {
                    if b < pos {
                        assert(order@[a] == before[a] && order@[b] == before[b]);
                    } else if b == pos {
                        assert(order@[a] == before[a]);
                    } else if a == pos {
                        assert(order@[b] == before[b - 1]);
                        assert(ranks_before(scores@, keys, p as int, before[pos as int] as int));
                        if b - 1 > pos {
                            assert(ranks_before(
                                scores@,
                                keys,
                                before[pos as int] as int,
                                before[b - 1] as int,
                            ));
                        }
                    } else if a < pos {
                        assert(order@[a] == before[a] && order@[b] == before[b - 1]);
                    } else {
                        assert(order@[a] == before[a - 1] && order@[b] == before[b - 1]);
                    }
                }
            }
            p = p + 1;
        }
        let m = if k < n {
            k
        } else {
            n
        };
        let ghost full = order@;
        order.truncate(m);
        proof {
            assert forall|a: int, q: int|
                #![trigger order@[a], listed(order@, q)]
                0 <= a < order@.len() && 0 <= q < n && !listed(order@, q) implies ranks_before(
                scores@,
                keys,
                order@[a] as int,
                q,
            ) by {
                assert(listed(full, q));
                let b = choose|b: int| 0 <= b < full.len() && full[b] == q;
                if b < m {
                    assert(order@[b] == q);
                }
                assert(full[a] == order@[a]);
            }
            assert(is_ranking(scores@, keys, k as int, order@));
            lemma_ranking_unique(scores@, keys, k as int, order@, ranking(scores@, keys, k as int));
        }
        order
    }

    /// Whether entry `a` ranks before entry `b` by `scores`.
    fn before(&self, scores: &Vec<u64>, a: usize, b: usize) -> (r: bool)
        requires
            self.wf(),
            scores.len() == self.chunk_seq().len(),
            a < scores.len(),
            b < scores.len(),
        ensures
            r == ranks_before(scores@, self.keys(), a as int, b as int),
    {
        let ka = self.embeddings[a].chunk_index;
        let kb = self.embeddings[b].chunk_index;
        scores[a] > scores[b] || (scores[a] == scores[b] && (ka < kb || (ka == kb && a < b)))
    }
}

} // verus!
