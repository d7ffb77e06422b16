use vstd::prelude::*;
use vstd::arithmetic::div_mod::{lemma_fundamental_div_mod, lemma_mod_bound};
use vstd::arithmetic::mul::lemma_mul_inequality;

verus! {

/// Why a chunking configuration was rejected.
#[derive(Debug, Clone, Copy, PartialEq, Eq, Structural)]
pub enum ConfigError {
    /// The window size is zero.
    ZeroSize,
    /// The overlap is not smaller than the window size, so the window would never advance.
    OverlapNotBelowSize,
}

/// One fragment of a document: the words of one window, joined by single spaces.
#[derive(Debug, Clone)]
pub struct Chunk {
    /// Position of the chunk in the chunker's output.
    pub index: usize,
    /// The window's words joined by single spaces.
    pub text: String,
    /// Position, in the document's word sequence, of the window's first word.
    pub source_offset: usize,
    /// Number of words in the window.
    pub word_count: usize,
}

/// The whitespace-separated words of a text.
pub uninterp spec fn words_of(s: Seq<char>) -> Seq<Seq<char>>;

/// Relies on `str::split_whitespace`: the words of a text, in order, depend on its
/// characters alone.
#[verifier::external_body]
fn split_words(text: &str) -> (r: Vec<String>)
    ensures
        words_view(r@) == words_of(text@),
{
    text.split_whitespace().map(|w| w.to_string()).collect()
}

/// The characters of each word.
pub open spec fn words_view(ws: Seq<String>) -> Seq<Seq<char>> {
    ws.map_values(|w: String| w@)
}

/// Words joined by single spaces.
pub open spec fn join_words(ws: Seq<Seq<char>>) -> Seq<char>
    decreases ws.len(),
{
    if ws.len() == 0 {
        Seq::empty()
    } else if ws.len() == 1 {
        ws[0]
    } else {
        join_words(ws.drop_last()) + seq![' '] + ws.last()
    }
}

/// A window size and overlap that let the window advance.
pub open spec fn valid_config(size: int, overlap: int) -> bool {
    0 <= overlap < size
}

/// Word position where window `i` starts.
pub open spec fn window_start(i: int, size: int, overlap: int) -> int {
    i * (size - overlap)
}

/// Word position just past window `i`, for a document of `n` words.
pub open spec fn window_end(n: int, i: int, size: int, overlap: int) -> int {
    if window_start(i, size, overlap) + size <= n {
        window_start(i, size, overlap) + size
    } else {
        n
    }
}

/// The words of window `i`.
pub open spec fn window(words: Seq<Seq<char>>, size: int, overlap: int, i: int) -> Seq<Seq<char>> {
    words.subrange(window_start(i, size, overlap), window_end(words.len() as int, i, size, overlap))
}

/// The number of windows over `n` words: none for no words, one when the first window
/// reaches the end, else one more for each step needed to bring a window to the end.
pub open spec fn chunk_count(n: int, size: int, overlap: int) -> int {
    if n <= 0 {
        0
    } else if n <= size {
        1
    } else {
        1 + (n - size + (size - overlap) - 1) / (size - overlap)
    }
}

/// Chunk `c` is window `i` of `words`.
pub open spec fn is_window_chunk(words: Seq<Seq<char>>, size: int, overlap: int, c: Chunk, i: int) -> bool {
    &&& c.index == i
    &&& c.source_offset == window_start(i, size, overlap)
    &&& c.word_count == window(words, size, overlap, i).len()
    &&& c.text@ == join_words(window(words, size, overlap, i))
}

/// The chunks over `words` are exactly the windows, numbered from zero.
pub open spec fn chunks_of(words: Seq<Seq<char>>, size: int, overlap: int, cs: Seq<Chunk>) -> bool {
    &&& cs.len() == chunk_count(words.len() as int, size, overlap)
    &&& forall|i: int|
        0 <= i < cs.len() ==> #[trigger] is_window_chunk(words, size, overlap, cs[i], i)
}

/// The word sequences of all windows, in order.
pub open spec fn windows(words: Seq<Seq<char>>, size: int, overlap: int) -> Seq<Seq<Seq<char>>> {
    Seq::new(
        chunk_count(words.len() as int, size, overlap) as nat,
        |i: int| window(words, size, overlap, i),
    )
}

/// The first window whole, then every later window without its first `overlap` words.
pub open spec fn strip_overlaps(ws: Seq<Seq<Seq<char>>>, overlap: int) -> Seq<Seq<char>>
    decreases ws.len(),
{
    if ws.len() == 0 {
        Seq::empty()
    } else if ws.len() == 1 {
        ws[0]
    } else {
        strip_overlaps(ws.drop_last(), overlap) + ws.last().subrange(
            overlap,
            ws.last().len() as int,
        )
    }
}

/// Where window `i` stands against the end of the words: every window but the last
/// ends short of the end, the last one reaches it, and each starts before it.
proof fn lemma_window_bounds(n: int, size: int, overlap: int, i: int)
    requires
        n > 0,
        valid_config(size, overlap),
        0 <= i < chunk_count(n, size, overlap),
    ensures
        i < chunk_count(n, size, overlap) - 1 ==> window_start(i, size, overlap) + size < n,
        i == chunk_count(n, size, overlap) - 1 ==> window_start(i, size, overlap) + size >= n,
        window_start(i, size, overlap) < n,
        window_start(i, size, overlap) >= 0,
{
    let step = size - overlap;
    assert(i * step >= 0) by (nonlinear_arith)
        requires
            i >= 0,
            step > 0,
    ;
    if n <= size {
        assert(i == 0);
        assert(i * step == 0);
    } else {
        let x = n - size;
        let q = (x + step - 1) / step;
        lemma_fundamental_div_mod(x + step - 1, step);
        lemma_mod_bound(x + step - 1, step);
        assert(q * step >= x && (q - 1) * step < x) by (nonlinear_arith)
            requires
                x + step - 1 == step * q + (x + step - 1) % step,
                0 <= (x + step - 1) % step < step,
        ;
        if i < q {
            lemma_mul_inequality(i, q - 1, step);
        } else {
            assert(i == q);
            assert((q - 1) * step + step == q * step) by (nonlinear_arith);
        }
    }
}

/// The number of windows is the only count for which the last window reaches the end
/// and the one before it does not.
proof fn lemma_count_unique(n: int, size: int, overlap: int, c: int)
    requires
        n > 0,
        valid_config(size, overlap),
        c >= 1,
        window_start(c - 1, size, overlap) + size >= n,
        c >= 2 ==> window_start(c - 2, size, overlap) + size < n,
    ensures
        c == chunk_count(n, size, overlap),
{
    let k = chunk_count(n, size, overlap);
    let step = size - overlap;
    lemma_window_bounds(n, size, overlap, k - 1);
    if c < k {
        lemma_window_bounds(n, size, overlap, c - 1);
    } else if c > k {
        lemma_mul_inequality(k - 1, c - 2, step);
    }
}

/// Taking the first `j` windows, the first whole and the rest without their overlap, gives
/// the words up to the end of window `j - 1`.
proof fn lemma_coverage_prefix(words: Seq<Seq<char>>, size: int, overlap: int, j: int)
    requires
        words.len() >= 1,
        valid_config(size, overlap),
        1 <= j <= chunk_count(words.len() as int, size, overlap),
    ensures
        strip_overlaps(windows(words, size, overlap).subrange(0, j), overlap) == words.subrange(
            0,
            window_end(words.len() as int, j - 1, size, overlap),
        ),
    decreases j,
{
    let n = words.len() as int;
    let ws = windows(words, size, overlap);
    lemma_window_bounds(n, size, overlap, j - 1);
    if j == 1 {
        assert(window_start(0, size, overlap) == 0);
    } else {
        lemma_coverage_prefix(words, size, overlap, j - 1);
        lemma_window_bounds(n, size, overlap, j - 2);
        let prev_end = window_end(n, j - 2, size, overlap);
        let end = window_end(n, j - 1, size, overlap);
        assert(window_start(j - 1, size, overlap) == window_start(j - 2, size, overlap) + (size
            - overlap)) by (nonlinear_arith);
        assert(ws.subrange(0, j).drop_last() =~= ws.subrange(0, j - 1));
        assert(ws.subrange(0, j).last() == ws[j - 1]);
        assert(ws[j - 1].subrange(overlap, ws[j - 1].len() as int) =~= words.subrange(
            prev_end,
            end,
        ));
        assert(words.subrange(0, prev_end) + words.subrange(prev_end, end) =~= words.subrange(
            0,
            end,
        ));
    }
}

/// Chunking splits the words into windows of `size` words that advance by `size - overlap`
/// words, the last one possibly shorter: taking the first window whole and every later one
/// without its first `overlap` words gives back the words exactly.
pub proof fn lemma_chunk_coverage(words: Seq<Seq<char>>, size: int, overlap: int)
    requires
        words.len() >= 1,
        valid_config(size, overlap),
    ensures
        strip_overlaps(windows(words, size, overlap), overlap) == words,
{
    let n = words.len() as int;
    let ws = windows(words, size, overlap);
    let c = ws.len() as int;
    lemma_window_bounds(n, size, overlap, 0);
    lemma_coverage_prefix(words, size, overlap, c);
    lemma_window_bounds(n, size, overlap, c - 1);
    assert(ws.subrange(0, c) =~= ws);
    assert(words.subrange(0, n) =~= words);
}

/// For a text of more words than the overlap, chunking with a valid configuration takes
/// ⌈(words − overlap) / (size − overlap)⌉ windows, one step of the chunking loop each.
pub proof fn lemma_chunk_steps(n: int, size: int, overlap: int)
    requires
        n > overlap,
        valid_config(size, overlap),
    ensures
        chunk_count(n, size, overlap) == (n - overlap + (size - overlap) - 1) / (size - overlap),
{
    let step = size - overlap;
    let x = n - overlap + step - 1;
    lemma_fundamental_div_mod(x, step);
    lemma_mod_bound(x, step);
    if n <= size {
        assert(x / step == 1) by (nonlinear_arith)
            requires
                x == step * (x / step) + x % step,
                0 <= x % step < step,
                step <= x < 2 * step,
        ;
    } else {
        let y = n - size + step - 1;
        lemma_fundamental_div_mod(y, step);
        lemma_mod_bound(y, step);
        assert(x == y + step);
        assert(x / step == y / step + 1) by (nonlinear_arith)
            requires
                x == step * (x / step) + x % step,
                y == step * (y / step) + y % step,
                0 <= x % step < step,
                0 <= y % step < step,
                x == y + step,
        ;
    }
}

/// Checks a window size and overlap before any chunking work is done.
pub fn validate_config(size: usize, overlap: usize) -> (r: Result<(), ConfigError>)
    ensures
        size == 0 ==> r == Err::<(), ConfigError>(ConfigError::ZeroSize),
        size > 0 && overlap >= size ==> r == Err::<(), ConfigError>(
            ConfigError::OverlapNotBelowSize,
        ),
        size > 0 && overlap < size ==> r is Ok,
{
    if size == 0 {
        Err(ConfigError::ZeroSize)
    } else if overlap >= size {
        Err(ConfigError::OverlapNotBelowSize)
    } else {
        Ok(())
    }
}

/// Joins `words[lo..hi]` with single spaces.
pub fn join_range(words: &Vec<String>, lo: usize, hi: usize) -> (r: String)
    requires
        lo <= hi <= words.len(),
    ensures
        r@ == join_words(words_view(words@).subrange(lo as int, hi as int)),
{
    let ghost wv = words_view(words@);
    let mut s = String::new();
    let mut j: usize = lo;
    while j < hi
        invariant
            lo <= j <= hi <= words.len(),
            wv == words_view(words@),
            s@ == join_words(wv.subrange(lo as int, j as int)),
        decreases hi - j,
    {
        proof {
            reveal_strlit(" ");
            assert(wv.subrange(lo as int, j + 1).drop_last() =~= wv.subrange(lo as int, j as int));
        }
        if j > lo {
            s.append(" ");
        }
        s.append(words[j].as_str());
        j = j + 1;
    }
    s
}

/// Splits a word sequence into overlapping windows of `size` words that advance by
/// `size - overlap` words; the last window may be shorter.
pub fn chunk_words(words: &Vec<String>, size: usize, overlap: usize) -> (r: Result<
    Vec<Chunk>,
    ConfigError,
>)
    ensures
        size == 0 ==> r is Err && r->Err_0 == ConfigError::ZeroSize,
        size > 0 && overlap >= size ==> r is Err && r->Err_0 == ConfigError::OverlapNotBelowSize,
        size > 0 && overlap < size ==> r is Ok && chunks_of(
            words_view(words@),
            size as int,
            overlap as int,
            r->Ok_0@,
        ),
{
    match validate_config(size, overlap) {
        Err(e) => {
            return Err(e);
        },
        Ok(()) => {},
    }
    let ghost wv = words_view(words@);
    let n = words.len();
    let step = size - overlap;
    let mut chunks: Vec<Chunk> = Vec::new();
    let mut start: usize = 0;
    let mut i: usize = 0;
    while start < n
        invariant
            0 <= overlap < size,
            step == size - overlap,
            n == words.len(),
            wv == words_view(words@),
            start == window_start(i as int, size as int, overlap as int),
            chunks.len() == i,
            i > 0 ==> start < n,
            i > 0 ==> window_start(i - 1, size as int, overlap as int) + size < n,
            forall|j: int|
                0 <= j < i ==> #[trigger] is_window_chunk(
                    wv,
                    size as int,
                    overlap as int,
                    chunks@[j],
                    j,
                ),
        decreases n - start,
    {
        let end = if size <= n - start {
            start + size
        } else {
            n
        };
        let text = join_range(words, start, end);
        let ghost before = chunks@;
        chunks.push(Chunk { index: i, text, source_offset: start, word_count: end - start });
        assert(forall|j: int| 0 <= j < i ==> chunks@[j] == #[trigger] before[j]);
        assert(is_window_chunk(wv, size as int, overlap as int, chunks@[i as int], i as int));
        if end >= n {
            proof {
                lemma_count_unique(n as int, size as int, overlap as int, i + 1);
                assert(wv.len() == n);
                assert(chunks@.len() == chunk_count(wv.len() as int, size as int, overlap as int));
            }
            return Ok(chunks);
        }
        proof {
            assert(window_start(i + 1, size as int, overlap as int) == start + step)
                by (nonlinear_arith)
                requires
                    start == window_start(i as int, size as int, overlap as int),
                    step == size - overlap,
            ;
            assert(i <= start) by (nonlinear_arith)
                requires
                    start == i * step,
                    step >= 1,
                    i >= 0,
            ;
        }
        start = start + step;
        i = i + 1;
    }
    assert(wv.len() == n);
    Ok(chunks)
}

/// Splits a text into its whitespace-separated words and chunks them with `chunk_words`.
pub fn chunk_text(text: &str, size: usize, overlap: usize) -> (r: Result<
    Vec<Chunk>,
    ConfigError,
>)
    ensures
        size == 0 ==> r is Err && r->Err_0 == ConfigError::ZeroSize,
        size > 0 && overlap >= size ==> r is Err && r->Err_0 == ConfigError::OverlapNotBelowSize,
        size > 0 && overlap < size ==> r is Ok && chunks_of(
            words_of(text@),
            size as int,
            overlap as int,
            r->Ok_0@,
        ),
{
    match validate_config(size, overlap) {
        Err(e) => {
            return Err(e);
        },
        Ok(()) => {},
    }
    let words = split_words(text);
    chunk_words(&words, size, overlap)
}

} // verus!
