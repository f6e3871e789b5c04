use vstd::prelude::*;

use crate::vm::PhysicalAddress;

verus! {

/// The allocation granule: one frame of physical memory.
pub const FRAME_SIZE: usize = 4096;

/// The frames below frame number `end` all have addresses that fit a `usize`.
pub open spec fn frames_fit(end: int) -> bool {
    end * FRAME_SIZE <= usize::MAX
}

/// A maximal run of free frames: `size` frames starting at frame number `start`.
#[derive(Clone, Copy, Debug, PartialEq, Eq)]
pub struct Hole {
    pub start: usize,
    pub size: usize,
}

/// A run of frames handed out by `alloc_range`: its base address and its length in bytes.
#[derive(Clone, Copy, Debug, PartialEq, Eq)]
pub struct Chunk {
    pub phys: PhysicalAddress,
    pub size: usize,
}

pub open spec fn hole_end(h: Hole) -> int {
    h.start + h.size
}

/// Holes are non-empty, below the frame limit, sorted by start, and neither overlap nor touch.
pub open spec fn holes_wf(h: Seq<Hole>) -> bool {
    &&& forall|i: int| 0 <= i < h.len() ==> #[trigger] h[i].size > 0 && frames_fit(hole_end(h[i]))
    &&& forall|i: int, j: int| #![trigger h[i], h[j]] 0 <= i < j < h.len() ==> hole_end(h[i]) < h[j].start
}

/// The number of free frames that a free-list describes.
pub open spec fn total_frames(h: Seq<Hole>) -> int
    decreases h.len(),
{
    if h.len() == 0 {
        0
    } else {
        total_frames(h.drop_last()) + h.last().size
    }
}

/// The frames `[s, s + n)` overlap no hole.
pub open spec fn region_free(h: Seq<Hole>, s: int, n: int) -> bool {
    forall|i: int| 0 <= i < h.len() ==> hole_end(#[trigger] h[i]) <= s || s + n <= h[i].start
}

/// The number of holes that start at or before frame `s` (in a sorted list: where `s` goes).
pub open spec fn insert_point(h: Seq<Hole>, s: int) -> int
    decreases h.len(),
{
    if h.len() == 0 {
        0
    } else if h.last().start <= s {
        h.len() as int
    } else {
        insert_point(h.drop_last(), s)
    }
}

/// The free-list after the frames `[s, s + n)` were added at position `i`, merged with the
/// hole before and the hole after wherever they touch.
pub open spec fn merged_at(h: Seq<Hole>, i: int, s: int, n: int) -> Seq<Hole> {
    let prev_adj = i > 0 && hole_end(h[i - 1]) == s;
    let next_adj = i < h.len() && s + n == h[i].start;
    if n == 0 {
        h
    } else if prev_adj && next_adj {
        h.update(i - 1, Hole { start: h[i - 1].start, size: (h[i - 1].size + n + h[i].size) as usize }).remove(i)
    } else if prev_adj {
        h.update(i - 1, Hole { start: h[i - 1].start, size: (h[i - 1].size + n) as usize })
    } else if next_adj {
        h.update(i, Hole { start: s as usize, size: (n + h[i].size) as usize })
    } else {
        h.insert(i, Hole { start: s as usize, size: n as usize })
    }
}

/// The free-list after the frames `[s, s + n)` were given back.
pub open spec fn inserted(h: Seq<Hole>, s: int, n: int) -> Seq<Hole> {
    merged_at(h, insert_point(h, s), s, n)
}

/// The free-list after one frame was taken from the front of the first hole.
pub open spec fn after_alloc(h: Seq<Hole>) -> Seq<Hole> {
    if h[0].size == 1 {
        h.drop_first()
    } else {
        h.update(0, Hole { start: (h[0].start + 1) as usize, size: (h[0].size - 1) as usize })
    }
}

/// The index of the first hole of at least `n` frames, or the length of the list if none is.
pub open spec fn first_fit(h: Seq<Hole>, n: int) -> int
    decreases h.len(),
{
    if h.len() == 0 {
        0
    } else if h[0].size >= n {
        0
    } else {
        1 + first_fit(h.drop_first(), n)
    }
}

/// The number of frames that cover `size` bytes.
pub open spec fn frames_for(size: int) -> int {
    if size % (FRAME_SIZE as int) == 0 {
        size / (FRAME_SIZE as int)
    } else {
        size / (FRAME_SIZE as int) + 1
    }
}

/// The free-list after `n` frames were taken from the front of hole `i`.
pub open spec fn taken_from(h: Seq<Hole>, i: int, n: int) -> Seq<Hole> {
    if h[i].size == n {
        h.remove(i)
    } else {
        h.update(i, Hole { start: (h[i].start + n) as usize, size: (h[i].size - n) as usize })
    }
}

/// The free-list after `alloc_range` of `n` frames: first fit, or else the whole first hole.
pub open spec fn after_alloc_range(h: Seq<Hole>, n: int) -> Seq<Hole> {
    let i = first_fit(h, n);
    if i < h.len() {
        if n == 0 {
            h
        } else {
            taken_from(h, i, n)
        }
    } else {
        h.drop_first()
    }
}

/// The chunk that `alloc_range` of `n` frames hands out.
pub open spec fn range_chunk(h: Seq<Hole>, n: int) -> (int, int) {
    let i = first_fit(h, n);
    if i < h.len() {
        (h[i].start * FRAME_SIZE, n * FRAME_SIZE)
    } else {
        (h[0].start * FRAME_SIZE, h[0].size * FRAME_SIZE)
    }
}

proof fn lemma_total_concat(a: Seq<Hole>, b: Seq<Hole>)
    ensures
        total_frames(a + b) == total_frames(a) + total_frames(b),
    decreases b.len(),
{
    if b.len() == 0 {
        assert(a + b =~= a);
    } else {
        assert((a + b).drop_last() =~= a + b.drop_last());
        lemma_total_concat(a, b.drop_last());
    }
}

proof fn lemma_total_split(h: Seq<Hole>, i: int)
    requires
        0 <= i < h.len(),
    ensures
        total_frames(h) == total_frames(h.subrange(0, i)) + h[i].size + total_frames(
            h.subrange(i + 1, h.len() as int),
        ),
{
    let pre = h.subrange(0, i);
    let post = h.subrange(i + 1, h.len() as int);
    assert(h =~= pre + seq![h[i]] + post);
    lemma_total_concat(pre + seq![h[i]], post);
    lemma_total_concat(pre, seq![h[i]]);
    let one = seq![h[i]];
    assert(one.drop_last() =~= Seq::<Hole>::empty());
    assert(total_frames(one) == total_frames(one.drop_last()) + one.last().size);
    assert(total_frames(Seq::<Hole>::empty()) == 0);
}

proof fn lemma_total_insert(h: Seq<Hole>, i: int, x: Hole)
    requires
        0 <= i <= h.len(),
    ensures
        total_frames(h.insert(i, x)) == total_frames(h) + x.size,
{
    let g = h.insert(i, x);
    lemma_total_split(g, i);
    assert(g.subrange(0, i) =~= h.subrange(0, i));
    assert(g.subrange(i + 1, g.len() as int) =~= h.subrange(i, h.len() as int));
    assert(h =~= h.subrange(0, i) + h.subrange(i, h.len() as int));
    lemma_total_concat(h.subrange(0, i), h.subrange(i, h.len() as int));
}

proof fn lemma_total_update(h: Seq<Hole>, i: int, x: Hole)
    requires
        0 <= i < h.len(),
    ensures
        total_frames(h.update(i, x)) == total_frames(h) - h[i].size + x.size,
{
    let g = h.update(i, x);
    lemma_total_split(g, i);
    lemma_total_split(h, i);
    assert(g.subrange(0, i) =~= h.subrange(0, i));
    assert(g.subrange(i + 1, g.len() as int) =~= h.subrange(i + 1, h.len() as int));
}

proof fn lemma_total_remove(h: Seq<Hole>, i: int)
    requires
        0 <= i < h.len(),
    ensures
        total_frames(h.remove(i)) == total_frames(h) - h[i].size,
{
    let g = h.remove(i);
    lemma_total_split(h, i);
    assert(g =~= h.subrange(0, i) + h.subrange(i + 1, h.len() as int));
    lemma_total_concat(h.subrange(0, i), h.subrange(i + 1, h.len() as int));
}

proof fn lemma_insert_point(h: Seq<Hole>, s: int, idx: int)
    requires
        holes_wf(h),
        0 <= idx <= h.len(),
        forall|j: int| 0 <= j < idx ==> #[trigger] h[j].start <= s,
        idx == h.len() || h[idx].start > s,
    ensures
        insert_point(h, s) == idx,
    decreases h.len(),
{
    if h.len() > 0 {
        if idx == h.len() {
            assert(h.last().start <= s);
        } else {
            let last = h.len() - 1;
            if idx < last {
                assert(hole_end(h[idx]) < h[last].start);
            }
            assert(h.last().start > s);
            let g = h.drop_last();
            assert forall|j: int| 0 <= j < idx implies #[trigger] g[j].start <= s by {
                assert(g[j] == h[j]);
            }
            if idx < g.len() {
                assert(g[idx] == h[idx]);
            }
            lemma_insert_point(g, s, idx);
        }
    }
}

proof fn lemma_first_fit(h: Seq<Hole>, n: int, i: int)
    requires
        0 <= i <= h.len(),
        forall|j: int| 0 <= j < i ==> #[trigger] h[j].size < n,
        i == h.len() || h[i].size >= n,
    ensures
        first_fit(h, n) == i,
    decreases h.len(),
{
    if h.len() > 0 && i > 0 {
        let g = h.drop_first();
        assert(h[0].size < n);
        assert forall|j: int| 0 <= j < i - 1 implies #[trigger] g[j].size < n by {
            assert(g[j] == h[j + 1]);
        }
        if i - 1 < g.len() {
            assert(g[i - 1] == h[i]);
        }
        lemma_first_fit(g, n, i - 1);
    }
}

/// What holds of the place where frames `[s, s + n)` go back into a free-list.
spec fn insert_context(h: Seq<Hole>, s: int, n: int, i: int) -> bool {
    &&& holes_wf(h)
    &&& region_free(h, s, n)
    &&& 0 <= s
    &&& 0 < n
    &&& frames_fit(s + n)
    &&& 0 <= i <= h.len()
    &&& forall|j: int| 0 <= j < i ==> #[trigger] h[j].start <= s
    &&& i < h.len() ==> h[i].start > s
}

proof fn lemma_merge_both(h: Seq<Hole>, s: int, n: int, i: int)
    requires
        insert_context(h, s, n, i),
        i > 0 && hole_end(h[i - 1]) == s,
        i < h.len() && s + n == h[i].start,
    ensures
        holes_wf(merged_at(h, i, s, n)),
        total_frames(merged_at(h, i, s, n)) == total_frames(h) + n,
{
    let g = merged_at(h, i, s, n);
    let m = Hole { start: h[i - 1].start, size: (h[i - 1].size + n + h[i].size) as usize };
    let u = h.update(i - 1, m);
    lemma_total_update(h, i - 1, m);
    lemma_total_remove(u, i);
    assert forall|a: int, b: int| #![trigger g[a], g[b]] 0 <= a < b < g.len() implies hole_end(g[a]) < g[b].start by {
        let ha = if a < i { a } else { a + 1 };
        let hb = if b < i { b } else { b + 1 };
        if a == i - 1 {
            assert(g[b] == h[hb]);
            assert(hole_end(h[i]) < h[hb].start);
        } else {
            assert(g[a] == h[ha] && g[b] == u[hb]);
            if b == i - 1 {
                assert(hole_end(h[ha]) < h[i - 1].start);
            } else {
                assert(hole_end(h[ha]) < h[hb].start);
            }
        }
    }
    assert forall|a: int| 0 <= a < g.len() implies #[trigger] g[a].size > 0 && frames_fit(hole_end(g[a])) by {
        let ha = if a < i { a } else { a + 1 };
        if a != i - 1 {
            assert(g[a] == h[ha]);
        } else {
            assert(hole_end(g[a]) == hole_end(h[i]));
        }
    }
}

proof fn lemma_merge_prev(h: Seq<Hole>, s: int, n: int, i: int)
    requires
        insert_context(h, s, n, i),
        i > 0 && hole_end(h[i - 1]) == s,
        !(i < h.len() && s + n == h[i].start),
    ensures
        holes_wf(merged_at(h, i, s, n)),
        total_frames(merged_at(h, i, s, n)) == total_frames(h) + n,
{
    let g = merged_at(h, i, s, n);
    let m = Hole { start: h[i - 1].start, size: (h[i - 1].size + n) as usize };
    lemma_total_update(h, i - 1, m);
    assert forall|a: int, b: int| #![trigger g[a], g[b]] 0 <= a < b < g.len() implies hole_end(g[a]) < g[b].start by {
        if a == i - 1 {
            assert(h[b].start > s);
            assert(hole_end(h[b]) <= s || s + n <= h[b].start);
            if b > i {
                assert(hole_end(h[i]) < h[b].start);
                assert(hole_end(h[i]) <= s || s + n <= h[i].start);
            }
        } else {
            assert(hole_end(h[a]) < h[b].start);
        }
    }
    assert forall|a: int| 0 <= a < g.len() implies #[trigger] g[a].size > 0 && frames_fit(hole_end(g[a])) by {
        if a == i - 1 {
            if i < h.len() {
                assert(hole_end(h[i]) <= s || s + n <= h[i].start);
            }
        }
    }
}

proof fn lemma_merge_next(h: Seq<Hole>, s: int, n: int, i: int)
    requires
        insert_context(h, s, n, i),
        !(i > 0 && hole_end(h[i - 1]) == s),
        i < h.len() && s + n == h[i].start,
    ensures
        holes_wf(merged_at(h, i, s, n)),
        total_frames(merged_at(h, i, s, n)) == total_frames(h) + n,
{
    let g = merged_at(h, i, s, n);
    let m = Hole { start: s as usize, size: (n + h[i].size) as usize };
    lemma_total_update(h, i, m);
    assert forall|a: int, b: int| #![trigger g[a], g[b]] 0 <= a < b < g.len() implies hole_end(g[a]) < g[b].start by {
        if b == i {
            assert(h[a].start <= s);
            assert(hole_end(h[a]) <= s || s + n <= h[a].start);
            if a < i - 1 {
                assert(hole_end(h[a]) < h[i - 1].start);
                assert(h[i - 1].start <= s);
            }
        } else if a == i {
            assert(hole_end(h[i]) < h[b].start);
        } else {
            assert(hole_end(h[a]) < h[b].start);
        }
    }
}

proof fn lemma_merge_none(h: Seq<Hole>, s: int, n: int, i: int)
    requires
        insert_context(h, s, n, i),
        !(i > 0 && hole_end(h[i - 1]) == s),
        !(i < h.len() && s + n == h[i].start),
    ensures
        holes_wf(merged_at(h, i, s, n)),
        total_frames(merged_at(h, i, s, n)) == total_frames(h) + n,
{
    let g = merged_at(h, i, s, n);
    let m = Hole { start: s as usize, size: n as usize };
    lemma_total_insert(h, i, m);
    assert forall|a: int, b: int| #![trigger g[a], g[b]] 0 <= a < b < g.len() implies hole_end(g[a]) < g[b].start by {
        if b == i {
            assert(g[a] == h[a]);
            assert(h[a].start <= s);
            assert(hole_end(h[a]) <= s || s + n <= h[a].start);
            if a < i - 1 {
                assert(hole_end(h[a]) < h[i - 1].start);
                assert(h[i - 1].start <= s);
            }
        } else if a == i {
            assert(g[b] == h[b - 1]);
            assert(h[b - 1].start > s);
            assert(hole_end(h[b - 1]) <= s || s + n <= h[b - 1].start);
            if b - 1 > i {
                assert(hole_end(h[i]) < h[b - 1].start);
                assert(hole_end(h[i]) <= s || s + n <= h[i].start);
            }
        } else {
            let ha = if a < i { a } else { a - 1 };
            let hb = if b < i { b } else { b - 1 };
            assert(g[a] == h[ha] && g[b] == h[hb]);
            assert(hole_end(h[ha]) < h[hb].start);
        }
    }
    assert forall|a: int| 0 <= a < g.len() implies #[trigger] g[a].size > 0 && frames_fit(hole_end(g[a])) by {
        if a < i {
            assert(g[a] == h[a]);
        } else if a > i {
            assert(g[a] == h[a - 1]);
        }
    }
}

/// Giving back frames keeps the free-list well formed, adds exactly the frames given back,
/// and leaves no two touching holes unmerged.
pub proof fn lemma_insert_hole(h: Seq<Hole>, s: int, n: int)
    requires
        holes_wf(h),
        region_free(h, s, n),
        0 <= s,
        0 <= n,
        frames_fit(s + n),
    ensures
        holes_wf(inserted(h, s, n)),
        total_frames(inserted(h, s, n)) == total_frames(h) + n,
{
    let i = insert_point(h, s);
    lemma_insert_point_bounds(h, s);
    if n > 0 {
        let prev_adj = i > 0 && hole_end(h[i - 1]) == s;
        let next_adj = i < h.len() && s + n == h[i].start;
        if prev_adj && next_adj {
            lemma_merge_both(h, s, n, i);
        } else if prev_adj {
            lemma_merge_prev(h, s, n, i);
        } else if next_adj {
            lemma_merge_next(h, s, n, i);
        } else {
            lemma_merge_none(h, s, n, i);
        }
    }
}

/// Frame `f` lies in one of the holes.
pub open spec fn covers(h: Seq<Hole>, f: int) -> bool {
    exists|i: int| 0 <= i < h.len() && #[trigger] h[i].start <= f < hole_end(h[i])
}

/// A frame inside hole `i` is free.
pub proof fn lemma_covers_at(h: Seq<Hole>, i: int, f: int)
    requires
        0 <= i < h.len(),
        h[i].start <= f < hole_end(h[i]),
    ensures
        covers(h, f),
{
}

proof fn lemma_covers_both(h: Seq<Hole>, s: int, n: int, i: int, f: int)
    requires
        insert_context(h, s, n, i),
        i > 0 && hole_end(h[i - 1]) == s,
        i < h.len() && s + n == h[i].start,
    ensures
        covers(merged_at(h, i, s, n), f) == (covers(h, f) || (s <= f < s + n)),
{
    let g = merged_at(h, i, s, n);
    if covers(g, f) {
        let j = choose|j: int| 0 <= j < g.len() && #[trigger] g[j].start <= f < hole_end(g[j]);
        if j < i - 1 {
            lemma_covers_at(h, j, f);
        } else if j > i - 1 {
            assert(g[j] == h[j + 1]);
            lemma_covers_at(h, j + 1, f);
        } else if f < s {
            lemma_covers_at(h, i - 1, f);
        } else if f >= s + n {
            lemma_covers_at(h, i, f);
        }
    }
    if covers(h, f) {
        let k = choose|k: int| 0 <= k < h.len() && #[trigger] h[k].start <= f < hole_end(h[k]);
        if k < i - 1 {
            lemma_covers_at(g, k, f);
        } else if k > i {
            assert(g[k - 1] == h[k]);
            lemma_covers_at(g, k - 1, f);
        } else {
            lemma_covers_at(g, i - 1, f);
        }
    }
    if s <= f < s + n {
        lemma_covers_at(g, i - 1, f);
    }
}

proof fn lemma_covers_prev(h: Seq<Hole>, s: int, n: int, i: int, f: int)
    requires
        insert_context(h, s, n, i),
        i > 0 && hole_end(h[i - 1]) == s,
        !(i < h.len() && s + n == h[i].start),
    ensures
        covers(merged_at(h, i, s, n), f) == (covers(h, f) || (s <= f < s + n)),
{
    let g = merged_at(h, i, s, n);
    if covers(g, f) {
        let j = choose|j: int| 0 <= j < g.len() && #[trigger] g[j].start <= f < hole_end(g[j]);
        if j != i - 1 {
            lemma_covers_at(h, j, f);
        } else if f < s {
            lemma_covers_at(h, i - 1, f);
        }
    }
    if covers(h, f) {
        let k = choose|k: int| 0 <= k < h.len() && #[trigger] h[k].start <= f < hole_end(h[k]);
        lemma_covers_at(g, k, f);
    }
    if s <= f < s + n {
        lemma_covers_at(g, i - 1, f);
    }
}

proof fn lemma_covers_next(h: Seq<Hole>, s: int, n: int, i: int, f: int)
    requires
        insert_context(h, s, n, i),
        !(i > 0 && hole_end(h[i - 1]) == s),
        i < h.len() && s + n == h[i].start,
    ensures
        covers(merged_at(h, i, s, n), f) == (covers(h, f) || (s <= f < s + n)),
{
    let g = merged_at(h, i, s, n);
    if covers(g, f) {
        let j = choose|j: int| 0 <= j < g.len() && #[trigger] g[j].start <= f < hole_end(g[j]);
        if j != i {
            lemma_covers_at(h, j, f);
        } else if f >= s + n {
            lemma_covers_at(h, i, f);
        }
    }
    if covers(h, f) {
        let k = choose|k: int| 0 <= k < h.len() && #[trigger] h[k].start <= f < hole_end(h[k]);
        lemma_covers_at(g, k, f);
    }
    if s <= f < s + n {
        lemma_covers_at(g, i, f);
    }
}

proof fn lemma_covers_none(h: Seq<Hole>, s: int, n: int, i: int, f: int)
    requires
        insert_context(h, s, n, i),
        !(i > 0 && hole_end(h[i - 1]) == s),
        !(i < h.len() && s + n == h[i].start),
    ensures
        covers(merged_at(h, i, s, n), f) == (covers(h, f) || (s <= f < s + n)),
{
    let g = merged_at(h, i, s, n);
    if covers(g, f) {
        let j = choose|j: int| 0 <= j < g.len() && #[trigger] g[j].start <= f < hole_end(g[j]);
        if j < i {
            lemma_covers_at(h, j, f);
        } else if j > i {
            assert(g[j] == h[j - 1]);
            lemma_covers_at(h, j - 1, f);
        }
    }
    if covers(h, f) {
        let k = choose|k: int| 0 <= k < h.len() && #[trigger] h[k].start <= f < hole_end(h[k]);
        if k < i {
            lemma_covers_at(g, k, f);
        } else {
            assert(g[k + 1] == h[k]);
            lemma_covers_at(g, k + 1, f);
        }
    }
    if s <= f < s + n {
        lemma_covers_at(g, i, f);
    }
}

/// The frames that the free-list holds after giving back `[s, s + n)`: those it held, and those.
proof fn lemma_inserted_covers(h: Seq<Hole>, s: int, n: int, f: int)
    requires
        holes_wf(h),
        region_free(h, s, n),
        0 <= s,
        0 < n,
        frames_fit(s + n),
    ensures
        covers(inserted(h, s, n), f) == (covers(h, f) || (s <= f < s + n)),
{
    let i = insert_point(h, s);
    lemma_insert_point_bounds(h, s);
    let prev_adj = i > 0 && hole_end(h[i - 1]) == s;
    let next_adj = i < h.len() && s + n == h[i].start;
    if prev_adj && next_adj {
        lemma_covers_both(h, s, n, i, f);
    } else if prev_adj {
        lemma_covers_prev(h, s, n, i, f);
    } else if next_adj {
        lemma_covers_next(h, s, n, i, f);
    } else {
        lemma_covers_none(h, s, n, i, f);
    }
}

/// Taking one frame keeps every other free frame free and makes that one used.
pub proof fn lemma_after_alloc_covers(h: Seq<Hole>)
    requires
        holes_wf(h),
        h.len() > 0,
    ensures
        forall|f: int| #[trigger] covers(after_alloc(h), f) <==> (covers(h, f) && f != h[0].start),
{
    let g = after_alloc(h);
    assert forall|f: int| #[trigger] covers(g, f) <==> (covers(h, f) && f != h[0].start) by {
        if covers(g, f) {
            let j = choose|j: int| 0 <= j < g.len() && #[trigger] g[j].start <= f < hole_end(g[j]);
            if h[0].size == 1 {
                assert(g[j] == h[j + 1]);
                lemma_covers_at(h, j + 1, f);
                assert(hole_end(h[0]) < h[j + 1].start);
            } else if j == 0 {
                lemma_covers_at(h, 0, f);
            } else {
                lemma_covers_at(h, j, f);
                assert(hole_end(h[0]) < h[j].start);
            }
        }
        if covers(h, f) && f != h[0].start {
            let k = choose|k: int| 0 <= k < h.len() && #[trigger] h[k].start <= f < hole_end(h[k]);
            if h[0].size == 1 {
                if k == 0 {
                    assert(false);
                } else {
                    assert(g[k - 1] == h[k]);
                    lemma_covers_at(g, k - 1, f);
                }
            } else {
                lemma_covers_at(g, k, f);
            }
        }
    }
}

/// Taking `m` frames from the front of hole `i` makes those frames used and keeps the others.
pub proof fn lemma_taken_from_covers(h: Seq<Hole>, i: int, m: int)
    requires
        holes_wf(h),
        0 <= i < h.len(),
        0 < m <= h[i].size,
    ensures
        forall|f: int| #[trigger] covers(taken_from(h, i, m), f) <==> (covers(h, f) && !(h[i].start <= f
            < h[i].start + m)),
{
    let g = taken_from(h, i, m);
    assert forall|f: int| #[trigger] covers(g, f) <==> (covers(h, f) && !(h[i].start <= f < h[i].start + m)) by {
        if covers(g, f) {
            let j = choose|j: int| 0 <= j < g.len() && #[trigger] g[j].start <= f < hole_end(g[j]);
            if h[i].size == m {
                let k = if j < i { j } else { j + 1 };
                assert(g[j] == h[k]);
                lemma_covers_at(h, k, f);
                if k < i {
                    assert(hole_end(h[k]) < h[i].start);
                } else {
                    assert(hole_end(h[i]) < h[k].start);
                }
            } else {
                lemma_covers_at(h, j, f);
                if j < i {
                    assert(hole_end(h[j]) < h[i].start);
                } else if j > i {
                    assert(hole_end(h[i]) < h[j].start);
                }
            }
        }
        if covers(h, f) && !(h[i].start <= f < h[i].start + m) {
            let k = choose|k: int| 0 <= k < h.len() && #[trigger] h[k].start <= f < hole_end(h[k]);
            if h[i].size == m {
                if k < i {
                    lemma_covers_at(g, k, f);
                } else if k > i {
                    assert(g[k - 1] == h[k]);
                    lemma_covers_at(g, k - 1, f);
                }
            } else {
                lemma_covers_at(g, k, f);
            }
        }
    }
}

/// The hole that `alloc_range` of `n` frames takes from.
pub open spec fn chunk_hole(h: Seq<Hole>, n: int) -> int {
    if first_fit(h, n) < h.len() {
        first_fit(h, n)
    } else {
        0
    }
}

/// The number of frames that `alloc_range` of `n` frames hands out.
pub open spec fn chunk_frames(h: Seq<Hole>, n: int) -> int {
    if first_fit(h, n) < h.len() {
        n
    } else {
        h[0].size as int
    }
}

/// `alloc_range` of `n` frames hands out `chunk_frames` frames from the front of `chunk_hole`,
/// which are free before and used after, and keeps every other free frame.
pub proof fn lemma_after_alloc_range_covers(h: Seq<Hole>, n: int)
    requires
        holes_wf(h),
        h.len() > 0,
        n > 0,
    ensures
        0 <= chunk_hole(h, n) < h.len(),
        0 < chunk_frames(h, n) <= h[chunk_hole(h, n)].size,
        chunk_frames(h, n) <= n,
        range_chunk(h, n) == (h[chunk_hole(h, n)].start * FRAME_SIZE, chunk_frames(h, n) * FRAME_SIZE),
        after_alloc_range(h, n) == taken_from(h, chunk_hole(h, n), chunk_frames(h, n)),
        forall|f: int| #[trigger] covers(after_alloc_range(h, n), f) <==> (covers(h, f) && !(h[chunk_hole(
            h,
            n,
        )].start <= f < h[chunk_hole(h, n)].start + chunk_frames(h, n))),
{
    let i = first_fit(h, n);
    lemma_first_fit_bounds(h, n);
    if i >= h.len() {
        assert(h.remove(0) =~= h.drop_first());
        assert(h[0].size < n);
    }
    lemma_taken_from_covers(h, chunk_hole(h, n), chunk_frames(h, n));
}

proof fn lemma_first_fit_bounds(h: Seq<Hole>, n: int)
    ensures
        0 <= first_fit(h, n) <= h.len(),
        first_fit(h, n) < h.len() ==> h[first_fit(h, n)].size >= n,
        forall|j: int| 0 <= j < first_fit(h, n) ==> #[trigger] h[j].size < n,
    decreases h.len(),
{
    if h.len() > 0 && h[0].size < n {
        let g = h.drop_first();
        lemma_first_fit_bounds(g, n);
        assert forall|j: int| 0 <= j < first_fit(h, n) implies #[trigger] h[j].size < n by {
            if j > 0 {
                assert(h[j] == g[j - 1]);
            }
        }
    }
}

/// The free-list after `allocate` backed `n` pages with chunks from `alloc_range`, where no new
/// table was needed: each chunk is as large as `alloc_range` hands out for what is left.
pub open spec fn alloc_loop(h: Seq<Hole>, n: int) -> Seq<Hole>
    decreases n,
{
    if n <= 0 || h.len() == 0 {
        h
    } else {
        let c = chunk_frames(h, n);
        if c <= 0 || c > n {
            h
        } else {
            alloc_loop(after_alloc_range(h, n), n - c)
        }
    }
}

/// The frame numbers, in order, that `alloc_loop` hands out for `n` pages.
pub open spec fn alloc_frames(h: Seq<Hole>, n: int) -> Seq<int>
    decreases n,
{
    if n <= 0 || h.len() == 0 {
        Seq::<int>::empty()
    } else {
        let c = chunk_frames(h, n);
        if c <= 0 || c > n {
            Seq::<int>::empty()
        } else {
            Seq::new(c as nat, |j: int| h[chunk_hole(h, n)].start + j) + alloc_frames(after_alloc_range(h, n), n - c)
        }
    }
}

/// The free-list after the frame regions `regions` were given back, in order, to an empty
/// allocator.
pub open spec fn inserted_all(regions: Seq<(int, int)>) -> Seq<Hole>
    decreases regions.len(),
{
    if regions.len() == 0 {
        Seq::<Hole>::empty()
    } else {
        inserted(inserted_all(regions.drop_last()), regions.last().0, regions.last().1)
    }
}

/// The number of frames in `regions`.
pub open spec fn region_frames(regions: Seq<(int, int)>) -> int
    decreases regions.len(),
{
    if regions.len() == 0 {
        0
    } else {
        region_frames(regions.drop_last()) + regions.last().1
    }
}

/// Any sequence of pairwise disjoint frame regions, given back one after another, leaves a
/// free-list that is well formed (sorted, with no two touching holes left unmerged) and holds
/// exactly as many frames as the regions together.
pub proof fn lemma_insert_holes(regions: Seq<(int, int)>)
    requires
        forall|i: int|
            0 <= i < regions.len() ==> 0 <= (#[trigger] regions[i]).0 && 0 < regions[i].1
                && frames_fit(regions[i].0 + regions[i].1),
        forall|i: int, j: int|
            #![trigger regions[i], regions[j]]
            0 <= i < j < regions.len() ==> regions[i].0 + regions[i].1 <= regions[j].0 || regions[j].0
                + regions[j].1 <= regions[i].0,
    ensures
        holes_wf(inserted_all(regions)),
        total_frames(inserted_all(regions)) == region_frames(regions),
        forall|f: int| #[trigger] covers(inserted_all(regions), f) <==> exists|i: int|
            0 <= i < regions.len() && #[trigger] regions[i].0 <= f < regions[i].0 + regions[i].1,
    decreases regions.len(),
{
    if regions.len() > 0 {
        let pre = regions.drop_last();
        let last = regions.last();
        let n = regions.len() - 1;
        assert forall|i: int, j: int| #![trigger pre[i], pre[j]] 0 <= i < j < pre.len() implies pre[i].0 + pre[i].1
            <= pre[j].0 || pre[j].0 + pre[j].1 <= pre[i].0 by {
            assert(pre[i] == regions[i] && pre[j] == regions[j]);
        }
        assert forall|i: int| 0 <= i < pre.len() implies 0 <= (#[trigger] pre[i]).0 && 0 < pre[i].1 && frames_fit(
            pre[i].0 + pre[i].1,
        ) by {
            assert(pre[i] == regions[i]);
        }
        lemma_insert_holes(pre);
        let h = inserted_all(pre);
        assert(region_free(h, last.0, last.1)) by {
            assert forall|k: int| 0 <= k < h.len() implies hole_end(#[trigger] h[k]) <= last.0 || last.0 + last.1 <= h[k].start by {
                if !(hole_end(h[k]) <= last.0 || last.0 + last.1 <= h[k].start) {
                    let f = if h[k].start >= last.0 { h[k].start as int } else { last.0 };
                    lemma_covers_at(h, k, f);
                    assert(covers(h, f));
                    let i = choose|i: int| 0 <= i < pre.len() && #[trigger] pre[i].0 <= f < pre[i].0 + pre[i].1;
                    assert(pre[i] == regions[i]);
                    assert(regions[i].0 <= f < regions[i].0 + regions[i].1);
                    assert(regions[n].0 <= f < regions[n].0 + regions[n].1);
                }
            }
        }
        lemma_insert_hole(h, last.0, last.1);
        assert forall|f: int| #[trigger] covers(inserted_all(regions), f) <==> exists|i: int|
            0 <= i < regions.len() && #[trigger] regions[i].0 <= f < regions[i].0 + regions[i].1 by {
            lemma_inserted_covers(h, last.0, last.1, f);
            if exists|i: int| 0 <= i < regions.len() && #[trigger] regions[i].0 <= f < regions[i].0 + regions[i].1 {
                let i = choose|i: int| 0 <= i < regions.len() && #[trigger] regions[i].0 <= f < regions[i].0 + regions[i].1;
                if i < n {
                    assert(pre[i] == regions[i]);
                    assert(covers(h, f));
                }
            }
            if covers(h, f) {
                let i = choose|i: int| 0 <= i < pre.len() && #[trigger] pre[i].0 <= f < pre[i].0 + pre[i].1;
                assert(pre[i] == regions[i]);
                assert(regions[i].0 <= f < regions[i].0 + regions[i].1);
            }
        }
    }
}

proof fn lemma_insert_point_bounds(h: Seq<Hole>, s: int)
    requires
        holes_wf(h),
    ensures
        0 <= insert_point(h, s) <= h.len(),
        forall|j: int| 0 <= j < insert_point(h, s) ==> #[trigger] h[j].start <= s,
        insert_point(h, s) < h.len() ==> h[insert_point(h, s)].start > s,
    decreases h.len(),
{
    if h.len() > 0 {
        if h.last().start <= s {
            assert forall|j: int| 0 <= j < h.len() implies #[trigger] h[j].start <= s by {
                if j < h.len() - 1 {
                    assert(hole_end(h[j]) < h[h.len() - 1].start);
                }
            }
        } else {
            let g = h.drop_last();
            assert(holes_wf(g)) by {
                assert forall|a: int, b: int| #![trigger g[a], g[b]] 0 <= a < b < g.len() implies hole_end(g[a]) < g[b].start by {
                    assert(g[a] == h[a] && g[b] == h[b]);
                }
                assert forall|a: int| 0 <= a < g.len() implies #[trigger] g[a].size > 0 && frames_fit(hole_end(g[a])) by {
                    assert(g[a] == h[a]);
                }
            }
            lemma_insert_point_bounds(g, s);
            let k = insert_point(g, s);
            assert forall|j: int| 0 <= j < k implies #[trigger] h[j].start <= s by {
                assert(g[j] == h[j]);
            }
            if k < g.len() {
                assert(g[k] == h[k]);
            }
        }
    }
}

/// Taking one frame and giving it straight back restores the same holes.
pub proof fn lemma_alloc_dealloc(h: Seq<Hole>)
    requires
        holes_wf(h),
        h.len() > 0,
    ensures
        holes_wf(after_alloc(h)),
        region_free(after_alloc(h), h[0].start as int, 1),
        inserted(after_alloc(h), h[0].start as int, 1) == h,
{
    let g = after_alloc(h);
    let s = h[0].start as int;
    lemma_after_alloc_wf(h);
    assert forall|j: int| 0 <= j < g.len() implies #[trigger] g[j].start > s by {
        if h[0].size != 1 && j == 0 {
        } else if h[0].size == 1 {
            assert(g[j] == h[j + 1]);
            assert(hole_end(h[0]) < h[j + 1].start);
        } else {
            assert(hole_end(h[0]) < h[j].start);
        }
    }
    lemma_insert_point(g, s, 0);
    if h[0].size == 1 {
        if g.len() > 0 {
            assert(g[0] == h[1]);
            assert(hole_end(h[0]) < h[1].start);
        }
        assert(g.insert(0, Hole { start: s as usize, size: 1 }) =~= h);
    } else {
        assert(g.update(0, Hole { start: s as usize, size: (1 + g[0].size) as usize }) =~= h);
    }
}

proof fn lemma_after_alloc_wf(h: Seq<Hole>)
    requires
        holes_wf(h),
        h.len() > 0,
    ensures
        holes_wf(after_alloc(h)),
        total_frames(after_alloc(h)) == total_frames(h) - 1,
{
    let g = after_alloc(h);
    if h[0].size == 1 {
        assert(h.remove(0) =~= g);
        lemma_total_remove(h, 0);
        assert forall|a: int, b: int| #![trigger g[a], g[b]] 0 <= a < b < g.len() implies hole_end(g[a]) < g[b].start by {
            assert(g[a] == h[a + 1] && g[b] == h[b + 1]);
        }
        assert forall|a: int| 0 <= a < g.len() implies #[trigger] g[a].size > 0 && frames_fit(hole_end(g[a])) by {
            assert(g[a] == h[a + 1]);
        }
    } else {
        lemma_total_update(h, 0, g[0]);
        assert forall|a: int, b: int| #![trigger g[a], g[b]] 0 <= a < b < g.len() implies hole_end(g[a]) < g[b].start by {
            assert(hole_end(h[a]) < h[b].start);
        }
    }
}

proof fn lemma_taken_from_wf(h: Seq<Hole>, i: int, n: int)
    requires
        holes_wf(h),
        0 <= i < h.len(),
        0 < n <= h[i].size,
    ensures
        holes_wf(taken_from(h, i, n)),
        total_frames(taken_from(h, i, n)) == total_frames(h) - n,
{
    let g = taken_from(h, i, n);
    if h[i].size == n {
        lemma_total_remove(h, i);
        assert forall|a: int, b: int| #![trigger g[a], g[b]] 0 <= a < b < g.len() implies hole_end(g[a]) < g[b].start by {
            let ha = if a < i { a } else { a + 1 };
            let hb = if b < i { b } else { b + 1 };
            assert(g[a] == h[ha] && g[b] == h[hb]);
            assert(hole_end(h[ha]) < h[hb].start);
        }
        assert forall|a: int| 0 <= a < g.len() implies #[trigger] g[a].size > 0 && frames_fit(hole_end(g[a])) by {
            let ha = if a < i { a } else { a + 1 };
            assert(g[a] == h[ha]);
        }
    } else {
        lemma_total_update(h, i, g[i]);
        assert forall|a: int, b: int| #![trigger g[a], g[b]] 0 <= a < b < g.len() implies hole_end(g[a]) < g[b].start by {
            assert(hole_end(h[a]) < h[b].start);
        }
    }
}

/// Tracks free physical memory as a sorted list of holes of whole frames.
pub struct FrameAllocator {
    holes: Vec<Hole>,
}

impl View for FrameAllocator {
    type V = Seq<Hole>;

    closed spec fn view(&self) -> Seq<Hole> {
        self.holes@
    }
}

impl FrameAllocator {
    pub open spec fn wf(&self) -> bool {
        holes_wf(self@)
    }

    /// The number of free frames.
    pub open spec fn free_frames(&self) -> int {
        total_frames(self@)
    }

    /// An allocator with no free memory.
    pub fn empty() -> (r: Self)
        ensures
            r.wf(),
            r@ == Seq::<Hole>::empty(),
    {
        FrameAllocator { holes: Vec::new() }
    }

    /// The holes, in order.
    pub fn holes(&self) -> (r: Vec<Hole>)
        ensures
            r@ == self@,
    {
        self.holes.clone()
    }

    /// The number of free frames.
    pub fn free_count(&self) -> (r: usize)
        requires
            self.wf(),
        ensures
            r == self.free_frames(),
    {
        let mut sum: usize = 0;
        let mut i: usize = 0;
        while i < self.holes.len()
            invariant
                i <= self.holes@.len(),
                holes_wf(self@),
                sum == total_frames(self@.subrange(0, i as int)),
                i > 0 ==> sum <= hole_end(self@[i - 1]),
            decreases self.holes@.len() - i,
        {
            let h = self.holes[i];
            proof {
                let pre = self@.subrange(0, i as int);
                let next = self@.subrange(0, i + 1);
                assert(next.drop_last() =~= pre);
                if i > 0 {
                    assert(hole_end(self@[i - 1]) < self@[i as int].start);
                }
                assert(hole_end(h) * 4096 <= usize::MAX);
            }
            sum = sum + h.size;
            i += 1;
        }
        assert(self@.subrange(0, self@.len() as int) =~= self@);
        sum
    }

    /// Registers `[base, base + size)` as free; partial frames at either end are left out.
    pub fn insert_hole(&mut self, base: PhysicalAddress, size: usize)
        requires
            old(self).wf(),
            base.0 + size <= usize::MAX,
            region_free(old(self)@, (base.0 / FRAME_SIZE) as int, (size / FRAME_SIZE) as int),
        ensures
            final(self).wf(),
            final(self)@ == inserted(old(self)@, (base.0 / FRAME_SIZE) as int, (size / FRAME_SIZE) as int),
            final(self).free_frames() == old(self).free_frames() + (size / FRAME_SIZE) as int,
    {
        let s = base.0 / FRAME_SIZE;
        let n = size / FRAME_SIZE;
        assert(s * 4096 <= base.0 && n * 4096 <= size) by (nonlinear_arith)
            requires s == base.0 / 4096, n == size / 4096;
        assert((s + n) * 4096 <= base.0 + size) by (nonlinear_arith)
            requires s * 4096 <= base.0, n * 4096 <= size;
        proof {
            lemma_insert_hole(self@, s as int, n as int);
        }
        if n == 0 {
            return;
        }
        let mut idx: usize = 0;
        while idx < self.holes.len() && self.holes[idx].start <= s
            invariant
                0 <= idx <= self.holes@.len(),
                self@ == old(self)@,
                holes_wf(self@),
                forall|j: int| 0 <= j < idx ==> #[trigger] self.holes@[j].start <= s,
            decreases self.holes@.len() - idx,
        {
            idx += 1;
        }
        proof {
            lemma_insert_point(self@, s as int, idx as int);
        }
        let len = self.holes.len();
        let prev_adj = idx > 0 && self.holes[idx - 1].start + self.holes[idx - 1].size == s;
        let next_adj = idx < len && s + n == self.holes[idx].start;
        if prev_adj && next_adj {
            let merged = Hole {
                start: self.holes[idx - 1].start,
                size: self.holes[idx - 1].size + n + self.holes[idx].size,
            };
            self.holes.set(idx - 1, merged);
            self.holes.remove(idx);
        } else if prev_adj {
            let merged = Hole { start: self.holes[idx - 1].start, size: self.holes[idx - 1].size + n };
            self.holes.set(idx - 1, merged);
        } else if next_adj {
            let merged = Hole { start: s, size: n + self.holes[idx].size };
            self.holes.set(idx, merged);
        } else {
            self.holes.insert(idx, Hole { start: s, size: n });
        }
    }

    /// Hands out the first free frame. Running out of frames is fatal, so callers ensure there
    /// is one.
    pub fn allocate(&mut self) -> (r: PhysicalAddress)
        requires
            old(self).wf(),
            old(self)@.len() > 0,
        ensures
            final(self).wf(),
            r.0 == old(self)@[0].start * FRAME_SIZE,
            final(self)@ == after_alloc(old(self)@),
            final(self).free_frames() == old(self).free_frames() - 1,
    {
        proof {
            lemma_after_alloc_wf(self@);
        }
        let first = self.holes[0];
        assert(first.start * 4096 <= (first.start + first.size) * 4096) by (nonlinear_arith);
        let phys = PhysicalAddress(first.start * FRAME_SIZE);
        if first.size == 1 {
            self.holes.remove(0);
            assert(self@ =~= after_alloc(old(self)@));
        } else {
            self.holes.set(0, Hole { start: first.start + 1, size: first.size - 1 });
        }
        phys
    }

    /// Hands out `size` bytes, rounded up to frames, from the first hole that holds them all;
    /// where no hole does, hands out the whole first hole instead, so the caller asks again for
    /// the rest.
    pub fn alloc_range(&mut self, size: usize) -> (r: Chunk)
        requires
            old(self).wf(),
            old(self)@.len() > 0,
        ensures
            final(self).wf(),
            final(self)@ == after_alloc_range(old(self)@, frames_for(size as int)),
            (r.phys.0 as int, r.size as int) == range_chunk(old(self)@, frames_for(size as int)),
            r.size > 0 || size == 0,
            r.size <= frames_for(size as int) * FRAME_SIZE,
            r.size % FRAME_SIZE == 0,
            r.phys.0 + r.size <= usize::MAX,
            final(self).free_frames() == old(self).free_frames() - (r.size / FRAME_SIZE) as int,
    {
        let n = if size % FRAME_SIZE == 0 {
            size / FRAME_SIZE
        } else {
            size / FRAME_SIZE + 1
        };
        let mut i: usize = 0;
        while i < self.holes.len() && self.holes[i].size < n
            invariant
                0 <= i <= self.holes@.len(),
                self@ == old(self)@,
                forall|j: int| 0 <= j < i ==> #[trigger] self.holes@[j].size < n,
            decreases self.holes@.len() - i,
        {
            i += 1;
        }
        proof {
            lemma_first_fit(self@, n as int, i as int);
        }
        if i < self.holes.len() {
            let hole = self.holes[i];
            assert(hole.start * 4096 <= (hole.start + hole.size) * 4096) by (nonlinear_arith);
            assert(hole.start * 4096 + n * 4096 <= (hole.start + hole.size) * 4096) by (nonlinear_arith)
                requires n <= hole.size;
            if n > 0 {
                proof {
                    lemma_taken_from_wf(self@, i as int, n as int);
                }
                if hole.size == n {
                    self.holes.remove(i);
                } else {
                    self.holes.set(i, Hole { start: hole.start + n, size: hole.size - n });
                }
            }
            assert((n * 4096) / 4096 == n) by (nonlinear_arith);
            assert((n * 4096) % 4096 == 0) by (nonlinear_arith);
            Chunk { phys: PhysicalAddress(hole.start * FRAME_SIZE), size: n * FRAME_SIZE }
        } else {
            let hole = self.holes[0];
            assert(hole.start * 4096 <= (hole.start + hole.size) * 4096) by (nonlinear_arith);
            assert(hole.start * 4096 + hole.size * 4096 == (hole.start + hole.size) * 4096) by (nonlinear_arith);
            assert((hole.size * 4096) / 4096 == hole.size) by (nonlinear_arith);
            assert((hole.size * 4096) % 4096 == 0) by (nonlinear_arith);
            assert(hole.size * 4096 <= n * 4096) by (nonlinear_arith)
                requires hole.size < n;
            proof {
                lemma_taken_from_wf(self@, 0, hole.size as int);
            }
            self.holes.remove(0);
            assert(self@ =~= old(self)@.drop_first());
            Chunk { phys: PhysicalAddress(hole.start * FRAME_SIZE), size: hole.size * FRAME_SIZE }
        }
    }

    /// Gives back the single frame at `phys`, merging it with the holes it touches.
    pub fn dealloc(&mut self, phys: PhysicalAddress)
        requires
            old(self).wf(),
            phys.0 + FRAME_SIZE <= usize::MAX,
            region_free(old(self)@, (phys.0 / FRAME_SIZE) as int, 1),
        ensures
            final(self).wf(),
            final(self)@ == inserted(old(self)@, (phys.0 / FRAME_SIZE) as int, 1),
            final(self).free_frames() == old(self).free_frames() + 1,
    {
        self.insert_hole(phys, FRAME_SIZE);
    }
}

} // verus!
