use vstd::prelude::*;
use crate::chunker::Chunk;
use crate::index::{VectorIndex, ranking, is_ranking, lemma_ranking_unique};

verus! {

/// How many of the leading counts fit in `budget` together, stopping at the first that
/// does not.
pub open spec fn fitting(counts: Seq<int>, budget: int) -> nat
    decreases counts.len(),
{
    if counts.len() == 0 {
        0
    } else if counts[0] <= budget {
        1 + fitting(counts.drop_first(), budget - counts[0])
    } else {
        0
    }
}

/// Texts joined by a blank line.
pub open spec fn join_blocks(parts: Seq<Seq<char>>) -> Seq<char>
    decreases parts.len(),
{
    if parts.len() == 0 {
        Seq::empty()
    } else if parts.len() == 1 {
        parts[0]
    } else {
        join_blocks(parts.drop_last()) + seq!['\n', '\n'] + parts.last()
    }
}

/// The texts of the listed chunks, in list order.
pub open spec fn hit_texts(chunks: Seq<Chunk>, hits: Seq<usize>) -> Seq<Seq<char>> {
    Seq::new(hits.len(), |i: int| chunks[hits[i] as int].text@)
}

/// The word counts of the listed chunks, in list order.
pub open spec fn hit_counts(chunks: Seq<Chunk>, hits: Seq<usize>) -> Seq<int> {
    Seq::new(hits.len(), |i: int| chunks[hits[i] as int].word_count as int)
}

/// The context for a ranked list of chunks: the texts of the best-ranked chunks whose
/// words fit in `budget` together, whole and in rank order, joined by blank lines.
pub open spec fn context_of(chunks: Seq<Chunk>, hits: Seq<usize>, budget: int) -> Seq<char> {
    join_blocks(hit_texts(chunks, hits).take(fitting(hit_counts(chunks, hits), budget) as int))
}

proof fn lemma_fitting_step(counts: Seq<int>, j: int, budget: int)
    requires
        0 <= j < counts.len(),
    ensures
        counts[j] <= budget ==> fitting(counts.subrange(j, counts.len() as int), budget) == 1
            + fitting(counts.subrange(j + 1, counts.len() as int), budget - counts[j]),
        counts[j] > budget ==> fitting(counts.subrange(j, counts.len() as int), budget) == 0,
{
    let rest = counts.subrange(j, counts.len() as int);
    assert(rest.drop_first() =~= counts.subrange(j + 1, counts.len() as int));
}

/// Joins the texts of the listed chunks in list order, keeping the leading ones whose
/// word counts fit in `budget` together and dropping the rest.
pub fn assemble_context(chunks: &Vec<Chunk>, hits: &Vec<usize>, budget: usize) -> (r: String)
    requires
        forall|i: int| 0 <= i < hits.len() ==> #[trigger] hits@[i] < chunks.len(),
    ensures
        r@ == context_of(chunks@, hits@, budget as int),
{
    let ghost texts = hit_texts(chunks@, hits@);
    let ghost counts = hit_counts(chunks@, hits@);
    let mut out = String::new();
    let mut used: usize = 0;
    let mut j: usize = 0;
    proof {
        assert(counts.subrange(0, counts.len() as int) =~= counts);
    }
    while j < hits.len()
        invariant
            texts == hit_texts(chunks@, hits@),
            counts == hit_counts(chunks@, hits@),
            forall|i: int| 0 <= i < hits.len() ==> #[trigger] hits@[i] < chunks.len(),
            j <= hits.len(),
            used <= budget,
            fitting(counts, budget as int) == j + fitting(
                counts.subrange(j as int, counts.len() as int),
                budget - used,
            ),
            out@ == join_blocks(texts.take(j as int)),
        decreases hits.len() - j,
    {
        let c = &chunks[hits[j]];
        proof {
            lemma_fitting_step(counts, j as int, budget - used);
        }
        if c.word_count > budget - used {
            assert(texts.take(fitting(counts, budget as int) as int) == texts.take(j as int));
            return out;
        }
        proof {
            reveal_strlit("\n\n");
            assert(texts.take(j + 1).drop_last() =~= texts.take(j as int));
        }
        if j > 0 {
            out.append("\n\n");
        }
        out.append(c.text.as_str());
        used = used + c.word_count;
        j = j + 1;
    }
    proof {
        assert(counts.subrange(j as int, counts.len() as int) =~= Seq::<int>::empty());
    }
    out
}

/// The context for a query: the chunks of the index ranked by `scores` (see
/// `VectorIndex::query`), the best `k` of them, then as many of those, best first, as fit
/// in `budget` words. An empty index gives an empty context.
pub fn build_context<T>(index: &VectorIndex<T>, scores: &Vec<u64>, k: usize, budget: usize) -> (r:
    String)
    requires
        index.wf(),
        scores.len() == index.chunk_seq().len(),
    ensures
        r@ == context_of(index.chunk_seq(), ranking(scores@, index.keys(), k as int), budget as int),
{
    let hits = index.query(scores, k);
    assemble_context(index.chunks(), &hits, budget)
}

/// Retrieval from an empty index degrades to no context: the ranking is empty and so is
/// the context built from it.
pub proof fn lemma_empty_index_retrieval(scores: Seq<u64>, keys: Seq<usize>, k: int, chunks: Seq<
    Chunk,
>, budget: int)
    requires
        scores.len() == 0,
        keys.len() == 0,
        k >= 0,
    ensures
        ranking(scores, keys, k) == Seq::<usize>::empty(),
        context_of(chunks, ranking(scores, keys, k), budget) == Seq::<char>::empty(),
{
    let e = Seq::<usize>::empty();
    assert(is_ranking(scores, keys, k, e));
    lemma_ranking_unique(scores, keys, k, e, ranking(scores, keys, k));
    assert(hit_texts(chunks, e).take(0) =~= Seq::<Seq<char>>::empty());
}

} // verus!
