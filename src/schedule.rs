use vstd::prelude::*;

verus! {

/// Number of elements per chunk when `len` elements are split into `n`
/// chunks: the ceiling of `len / n`; everything in one chunk when `n` is 0.
pub open spec fn chunk_size(len: nat, n: nat) -> nat {
    if n == 0 {
        len
    } else {
        ((len + n - 1) / n as int) as nat
    }
}

/// The contents of each chunk, as sequences.
pub open spec fn chunk_views<T>(chunks: Seq<Vec<T>>) -> Seq<Seq<T>> {
    chunks.map_values(|c: Vec<T>| c@)
}

/// `chunks` cuts `s` in order into pieces of `c` elements, the last piece
/// holding what is left (at least one element unless `s` is empty, which
/// gives exactly one empty piece).
pub open spec fn is_split_of<T>(chunks: Seq<Seq<T>>, s: Seq<T>, c: nat) -> bool {
    &&& chunks.len() >= 1
    &&& s.len() == 0 ==> chunks.len() == 1
    &&& chunks.flatten() == s
    &&& forall|k: int| 0 <= k < chunks.len() - 1 ==> (#[trigger] chunks[k]).len() == c
    &&& chunks.last().len() <= c
    &&& s.len() > 0 ==> chunks.last().len() > 0
}

/// Splits `vec` in order into chunks of `ceil(len / n)` elements (the last
/// one holds the rest) and returns them with their sizes.
pub fn split_evenly<T>(vec: Vec<T>, n: usize) -> (r: (Vec<Vec<T>>, Vec<usize>))
    where
        T: Clone,
    ensures
        is_split_of(chunk_views(r.0@), vec@, chunk_size(vec@.len(), n as nat)),
        r.1@.len() == r.0@.len(),
        forall|k: int| 0 <= k < r.1@.len() ==> #[trigger] r.1@[k] == r.0@[k]@.len(),
{
    broadcast use Seq::group_seq_flatten;

    let len = vec.len();
    let size: usize = if n == 0 {
        len
    } else if len % n == 0 {
        len / n
    } else {
        assert(len / n < len) by (nonlinear_arith)
            requires
                n >= 1,
                len % n != 0,
        ;
        len / n + 1
    };
    proof {
        if n > 0 {
            assert(size == chunk_size(len as nat, n as nat)) by (nonlinear_arith)
                requires
                    n > 0,
                    size as int == (if len % n == 0 { len as int / n as int } else { len as int / n as int + 1 }),
            ;
            assert(len > 0 ==> size > 0) by (nonlinear_arith)
                requires
                    n > 0,
                    size as int == (if len % n == 0 { len as int / n as int } else { len as int / n as int + 1 }),
            ;
        }
    }
    let mut chunks: Vec<Vec<T>> = Vec::new();
    let mut rest = vec;
    while rest.len() > size
        invariant
            chunk_views(chunks@).flatten() + rest@ == vec@,
            forall|k: int| 0 <= k < chunks@.len() ==> (#[trigger] chunks@[k])@.len() == size,
            rest@.len() > 0 || vec@.len() == 0,
            size > 0 || vec@.len() == 0,
            rest@.len() <= vec@.len(),
            vec@.len() == 0 ==> chunks@.len() == 0,
        decreases rest@.len(),
    {
        let ghost whole = rest@;
        let tail = rest.split_off(size);
        let ghost before = chunks@;
        chunks.push(rest);
        proof {
            assert(chunk_views(chunks@) =~= chunk_views(before).push(rest@));
            assert(rest@ + tail@ =~= whole);
            assert(chunk_views(before).flatten() + whole == vec@);
            chunk_views(before).lemma_flatten_push(rest@);
            assert(chunk_views(chunks@).flatten() + tail@ =~= chunk_views(before).flatten() + whole);
        }
        rest = tail;
    }
    let ghost before = chunks@;
    chunks.push(rest);
    proof {
        assert(chunk_views(chunks@) =~= chunk_views(before).push(rest@));
        chunk_views(before).lemma_flatten_push(rest@);
    }
    let mut sizes: Vec<usize> = Vec::new();
    let mut k: usize = 0;
    while k < chunks.len()
        invariant
            k <= chunks@.len(),
            sizes@.len() == k,
            forall|j: int| 0 <= j < k ==> #[trigger] sizes@[j] == chunks@[j]@.len(),
        decreases chunks@.len() - k,
    {
        sizes.push(chunks[k].len());
        k = k + 1;
    }
    (chunks, sizes)
}

/// `image` with `rows` written over it, the first at position `start`.
pub open spec fn splice<R>(image: Seq<R>, start: int, rows: Seq<R>) -> Seq<R> {
    Seq::new(
        image.len(),
        |r: int|
            if start <= r < start + rows.len() {
                rows[r - start]
            } else {
                image[r]
            },
    )
}

/// What one job hands back: the rows it computed, in order, and the image
/// row where the first of them belongs.
pub struct Res<R> {
    pub buffers: Vec<R>,
    pub start: usize,
}

impl<R> Res<R> {
    /// Writes the computed rows into `image`, the first at row `start`.
    pub fn place_into(self, image: &mut Vec<R>)
        requires
            self.start + self.buffers@.len() <= old(image)@.len(),
        ensures
            final(image)@ == splice(old(image)@, self.start as int, self.buffers@),
    {
        let Res { mut buffers, start } = self;
        let ghost rows = buffers@;
        let ghost img0 = image@;
        let total = image.len();
        while buffers.len() > 0
            invariant
                total == img0.len(),
                start + rows.len() <= img0.len(),
                buffers@.len() <= rows.len(),
                buffers@ == rows.take(buffers@.len() as int),
                image@.len() == img0.len(),
                forall|r: int|
                    0 <= r < img0.len() ==> #[trigger] image@[r] == (if start + buffers@.len() <= r
                        < start + rows.len() {
                        rows[r - start]
                    } else {
                        img0[r]
                    }),
            decreases buffers@.len(),
        {
            let i = buffers.len() - 1;
            let row = buffers.pop().unwrap();
            proof {
                assert(row == rows[i as int]);
                assert(buffers@ =~= rows.take(i as int));
            }
            image.set(start + i, row);
        }
        proof {
            assert(image@ =~= splice(img0, start as int, rows));
        }
    }
}

/// The job for one chunk of rows: computes each row of `chunk` in order with
/// `render_row` and tags the result with the chunk's first row.
pub fn compute_chunk<R, F: Fn(usize) -> R>(chunk: Vec<usize>, render_row: F) -> (r: Res<R>)
    requires
        chunk@.len() > 0,
        forall|j: usize| #[trigger] render_row.requires((j,)),
    ensures
        r.start == chunk@[0],
        r.buffers@.len() == chunk@.len(),
        forall|k: int| 0 <= k < chunk@.len() ==> render_row.ensures((chunk@[k],), #[trigger] r.buffers@[k]),
{
    let start = chunk[0];
    let mut buffers: Vec<R> = Vec::with_capacity(chunk.len());
    let mut k: usize = 0;
    while k < chunk.len()
        invariant
            k <= chunk@.len(),
            buffers@.len() == k,
            forall|j: usize| #[trigger] render_row.requires((j,)),
            forall|i: int| 0 <= i < k ==> render_row.ensures((chunk@[i],), #[trigger] buffers@[i]),
        decreases chunk@.len() - k,
    {
        let row = render_row(chunk[k]);
        buffers.push(row);
        k = k + 1;
    }
    Res { buffers, start }
}

/// When `render_row` computes a fixed row function `row`, what
/// [`compute_chunk`] returns for `chunk` (its `start` and `buffers`) is
/// exactly `chunk_result(chunk, row)`, the value that reassembly places.
pub proof fn lemma_compute_chunk_result<R, F: Fn(usize) -> R>(
    chunk: Seq<usize>,
    render_row: F,
    row: spec_fn(usize) -> R,
    start: usize,
    buffers: Seq<R>,
)
    requires
        chunk.len() > 0,
        start == chunk[0],
        buffers.len() == chunk.len(),
        forall|k: int| 0 <= k < chunk.len() ==> render_row.ensures((chunk[k],), #[trigger] buffers[k]),
        forall|j: usize, x: R| #[trigger] render_row.ensures((j,), x) ==> x == row(j),
    ensures
        (start as int, buffers) == chunk_result(chunk, row),
{
    assert forall|k: int| 0 <= k < chunk.len() implies #[trigger] buffers[k] == chunk.map_values(row)[k] by {
        assert(render_row.ensures((chunk[k],), buffers[k]));
    }
    assert(buffers =~= chunk.map_values(row));
}

/// Where piece `k` of `cs` begins in `cs.flatten()`.
pub open spec fn piece_start<A>(cs: Seq<Seq<A>>, k: int) -> int {
    cs.take(k).flatten().len() as int
}

proof fn lemma_flatten_pieces<A>(cs: Seq<Seq<A>>)
    ensures
        forall|k: int|
            0 <= k < cs.len() ==> piece_start(cs, k) + cs[k].len() <= cs.flatten().len() && #[trigger] cs[k]
                == cs.flatten().subrange(piece_start(cs, k), piece_start(cs, k) + cs[k].len()),
    decreases cs.len(),
{
    if cs.len() > 0 {
        let pre = cs.drop_last();
        let last = cs.last();
        lemma_flatten_pieces(pre);
        assert(pre.push(last) =~= cs);
        pre.lemma_flatten_push(last);
        assert forall|k: int| 0 <= k < cs.len() implies piece_start(cs, k) + cs[k].len()
            <= cs.flatten().len() && #[trigger] cs[k] == cs.flatten().subrange(
            piece_start(cs, k),
            piece_start(cs, k) + cs[k].len(),
        ) by {
            assert(cs.take(k) =~= pre.take(k) || k == pre.len());
            if k < pre.len() {
                assert(cs.take(k) =~= pre.take(k));
                assert(cs[k] == pre[k]);
                assert(cs.flatten().subrange(piece_start(cs, k), piece_start(cs, k) + cs[k].len())
                    =~= pre.flatten().subrange(piece_start(pre, k), piece_start(pre, k) + pre[k].len()));
            } else {
                assert(cs.take(k) =~= pre);
                assert(cs.flatten().subrange(piece_start(cs, k), piece_start(cs, k) + cs[k].len())
                    =~= last);
            }
        }
    }
}

proof fn lemma_flatten_covers<A>(cs: Seq<Seq<A>>, r: int)
    requires
        0 <= r < cs.flatten().len(),
    ensures
        exists|k: int|
            0 <= k < cs.len() && piece_start(cs, k) <= r < piece_start(cs, k) + (#[trigger] cs[k]).len(),
    decreases cs.len(),
{
    if cs.len() == 0 {
        assert(cs.flatten().len() == 0);
    } else {
        let pre = cs.drop_last();
        let last = cs.last();
        assert(pre.push(last) =~= cs);
        pre.lemma_flatten_push(last);
        let k = cs.len() - 1;
        assert(cs.take(k) =~= pre);
        if r < pre.flatten().len() {
            lemma_flatten_covers(pre, r);
            let j = choose|j: int|
                0 <= j < pre.len() && piece_start(pre, j) <= r < piece_start(pre, j) + (
                #[trigger] pre[j]).len();
            assert(cs.take(j) =~= pre.take(j));
            assert(cs[j] == pre[j]);
        } else {
            assert(piece_start(cs, k) <= r < piece_start(cs, k) + cs[k].len());
        }
    }
}

/// The image rows `0, 1, ..., h - 1`.
pub open spec fn rows_upto(h: nat) -> Seq<usize> {
    Seq::new(h, |i: int| i as usize)
}

/// What the job for the rows `chunk` hands back when `row` computes one
/// image row: the start row and the computed rows.
pub open spec fn chunk_result<R>(chunk: Seq<usize>, row: spec_fn(usize) -> R) -> (int, Seq<R>) {
    (chunk[0] as int, chunk.map_values(row))
}

/// `image` after the results are written into it one after the other.
pub open spec fn place_all<R>(image: Seq<R>, results: Seq<(int, Seq<R>)>) -> Seq<R>
    decreases results.len(),
{
    if results.len() == 0 {
        image
    } else {
        splice(place_all(image, results.drop_last()), results.last().0, results.last().1)
    }
}

/// Row `r` lies in one of the chunks whose results come first in `order`.
pub open spec fn covered(chunks: Seq<Seq<usize>>, order: Seq<int>, m: int, r: int) -> bool {
    exists|i: int|
        0 <= i < m && chunks[order[i]][0] as int <= r < chunks[order[i]][0] as int + (#[trigger] chunks[order[i]]).len()
}

/// Reassembly is complete and does not depend on completion order: when the
/// rows `0..h` are split into chunks as [`split_evenly`] does, and the result
/// of every chunk is placed at least once, in any order, row `r` of the image
/// is what a direct computation of row `r` gives.
pub proof fn lemma_reassembly_any_order<R>(
    chunks: Seq<Seq<usize>>,
    c: nat,
    h: nat,
    order: Seq<int>,
    image: Seq<R>,
    row: spec_fn(usize) -> R,
)
    requires
        0 < h <= usize::MAX,
        is_split_of(chunks, rows_upto(h), c),
        image.len() == h,
        forall|i: int| 0 <= i < order.len() ==> 0 <= #[trigger] order[i] < chunks.len(),
        forall|k: int| 0 <= k < chunks.len() ==> #[trigger] order.contains(k),
    ensures
        place_all(image, order.map_values(|k: int| chunk_result(chunks[k], row))) == Seq::new(
            h,
            |r: int| row(r as usize),
        ),
{
    let results = order.map_values(|k: int| chunk_result(chunks[k], row));
    assert forall|k: int| 0 <= k < chunks.len() implies (#[trigger] chunks[k]).len() > 0 by {
        assert(chunks.last().len() > 0);
    }
    lemma_flatten_pieces(chunks);
    assert forall|k: int, i: int| 0 <= k < chunks.len() && 0 <= i < chunks[k].len() implies #[trigger] chunks[k][i]
        as int == chunks[k][0] as int + i by {
        assert(chunks[k][i] == rows_upto(h)[piece_start(chunks, k) + i]);
        assert(chunks[k][0] == rows_upto(h)[piece_start(chunks, k)]);
    }
    lemma_place_prefix(chunks, h, order, image, row, order.len() as int);
    assert(results.take(order.len() as int) =~= results);
    assert forall|r: int| 0 <= r < h implies covered(chunks, order, order.len() as int, r) by {
        assert(chunks.flatten().len() == h);
        lemma_flatten_covers(chunks, r);
        let k = choose|k: int|
            0 <= k < chunks.len() && piece_start(chunks, k) <= r < piece_start(chunks, k) + (
            #[trigger] chunks[k]).len();
        assert(order.contains(k));
        let i = choose|i: int| 0 <= i < order.len() && order[i] == k;
        assert(chunks[k][0] == rows_upto(h)[piece_start(chunks, k)]);
        assert(chunks[order[i]] == chunks[k]);
    }
    assert(place_all(image, results) =~= Seq::new(h, |r: int| row(r as usize)));
}

proof fn lemma_place_prefix<R>(
    chunks: Seq<Seq<usize>>,
    h: nat,
    order: Seq<int>,
    image: Seq<R>,
    row: spec_fn(usize) -> R,
    m: int,
)
    requires
        h <= usize::MAX,
        forall|k: int| 0 <= k < chunks.len() ==> (#[trigger] chunks[k]).len() > 0,
        forall|k: int, i: int|
            0 <= k < chunks.len() && 0 <= i < chunks[k].len() ==> #[trigger] chunks[k][i] as int
                == chunks[k][0] as int + i,
        image.len() == h,
        forall|i: int| 0 <= i < order.len() ==> 0 <= #[trigger] order[i] < chunks.len(),
        0 <= m <= order.len(),
    ensures
        ({
            let placed = place_all(
                image,
                order.map_values(|k: int| chunk_result(chunks[k], row)).take(m),
            );
            &&& placed.len() == h
            &&& forall|r: int|
                0 <= r < h ==> #[trigger] placed[r] == (if covered(chunks, order, m, r) {
                    row(r as usize)
                } else {
                    image[r]
                })
        }),
    decreases m,
{
    let results = order.map_values(|k: int| chunk_result(chunks[k], row));
    if m == 0 {
        assert(results.take(0) =~= Seq::<(int, Seq<R>)>::empty());
    } else {
        lemma_place_prefix(chunks, h, order, image, row, m - 1);
        assert(results.take(m).drop_last() =~= results.take(m - 1));
        let prev = place_all(image, results.take(m - 1));
        let placed = place_all(image, results.take(m));
        let k = order[m - 1];
        let c = chunks[k];
        assert(results.take(m).last() == chunk_result(c, row));
        assert forall|r: int| 0 <= r < h implies #[trigger] placed[r] == (if covered(
            chunks,
            order,
            m,
            r,
        ) {
            row(r as usize)
        } else {
            image[r]
        }) by {
            if c[0] as int <= r < c[0] as int + c.len() {
                let i = r - c[0] as int;
                assert(c[i] as int == c[0] as int + i);
                assert(c[i] == r as usize);
                assert(covered(chunks, order, m, r));
            } else {
                if covered(chunks, order, m, r) {
                    let j = choose|j: int|
                        0 <= j < m && chunks[order[j]][0] as int <= r < chunks[order[j]][0] as int
                            + (#[trigger] chunks[order[j]]).len();
                    assert(j != m - 1);
                    assert(covered(chunks, order, m - 1, r));
                }
                if covered(chunks, order, m - 1, r) {
                    let j = choose|j: int|
                        0 <= j < m - 1 && chunks[order[j]][0] as int <= r < chunks[order[j]][0] as int
                            + (#[trigger] chunks[order[j]]).len();
                    assert(covered(chunks, order, m, r));
                }
            }
        }
    }
}

} // verus!
