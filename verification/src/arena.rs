//! A bump allocator for runs of 64-bit words, with a free list keyed by run
//! length.
//!
//! The arena owns every word. A [`Run`] is a handle, not a pointer: it names a
//! chunk, a start position and a length, and the arena is asked for the words
//! behind it. What the arena has handed out and what it holds back is described
//! by a [`Layout`], a mathematical value on which the allocation policy is a
//! pair of pure functions ([`Layout::allocate`] and [`Layout::free`]).

use vstd::prelude::*;

verus! {

/// Number of words in a standard chunk: 128 KiB of 64-bit words.
pub const ARENA_CHUNK_WORDS: usize = 16384;

/// A handle to `len` consecutive words of chunk `chunk`, beginning at `start`.
#[derive(Clone, Copy, Debug, PartialEq, Eq, Structural)]
pub struct Run {
    pub chunk: usize,
    pub start: usize,
    pub len: usize,
}

impl Run {
    /// The handle of every empty run. No word stands behind it.
    pub open spec fn dangling_spec() -> Run {
        Run { chunk: usize::MAX, start: 0, len: 0 }
    }

    /// The handle of every empty run.
    #[verifier::when_used_as_spec(dangling_spec)]
    pub fn dangling() -> (r: Run)
        ensures
            r == Run::dangling_spec(),
    {
        Run { chunk: usize::MAX, start: 0, len: 0 }
    }

    /// Two runs are disjoint when they share no word. An empty run is disjoint
    /// from every run, itself included.
    pub open spec fn disjoint(self, other: Run) -> bool {
        ||| self.len == 0
        ||| other.len == 0
        ||| self.chunk != other.chunk
        ||| self.start + self.len <= other.start
        ||| other.start + other.len <= self.start
    }
}

/// Which words of an arena are spoken for: the chunk sizes, the bump cursor
/// into the newest chunk, and for each run length the stack of freed runs of
/// exactly that length.
#[verifier::ext_equal]
pub struct Layout {
    pub chunk_lens: Seq<nat>,
    pub cursor: nat,
    pub free: Map<nat, Seq<Run>>,
}

impl Layout {
    /// The layout of an arena that has not allocated yet. The cursor stands at
    /// the end of a chunk that does not exist, so the first request for words
    /// opens one.
    pub open spec fn empty() -> Layout {
        Layout { chunk_lens: Seq::empty(), cursor: ARENA_CHUNK_WORDS as nat, free: Map::empty() }
    }

    /// The freed runs of length `n`, oldest first.
    pub open spec fn free_runs(self, n: nat) -> Seq<Run> {
        if self.free.dom().contains(n) {
            self.free[n]
        } else {
            Seq::empty()
        }
    }

    /// `r` waits on the free list.
    pub open spec fn is_free(self, r: Run) -> bool {
        self.free_runs(r.len as nat).contains(r)
    }

    /// How much of chunk `c` the bump cursor has passed: all of it, unless it
    /// is the newest chunk.
    pub open spec fn bound(self, c: int) -> nat {
        if c + 1 == self.chunk_lens.len() {
            self.cursor
        } else {
            self.chunk_lens[c]
        }
    }

    /// `r` lies in words that the bump cursor has passed.
    pub open spec fn within(self, r: Run) -> bool {
        r.chunk < self.chunk_lens.len() && r.start + r.len <= self.bound(r.chunk as int)
    }

    /// `r` may be held by a caller: it lies in allocated words and shares none
    /// with a freed run. Every empty run is leased.
    pub open spec fn leased(self, r: Run) -> bool {
        r.len == 0 || (self.within(r) && forall|f: Run| #[trigger] self.is_free(f)
            ==> f.disjoint(r))
    }

    /// The bookkeeping is consistent: the cursor lies in the newest chunk,
    /// no chunk is smaller than a standard chunk, and the freed runs hold
    /// words, are filed under their length, lie in allocated words and share
    /// none with each other.
    pub open spec fn wf(self) -> bool {
        &&& self.chunk_lens.len() == 0 ==> self.cursor == ARENA_CHUNK_WORDS
        &&& self.chunk_lens.len() > 0 ==> self.cursor <= self.chunk_lens.last()
        &&& forall|c: int|
            0 <= c < self.chunk_lens.len() ==> #[trigger] self.chunk_lens[c] >= ARENA_CHUNK_WORDS
        &&& forall|n: nat| #[trigger]
            self.free.dom().contains(n) ==> n > 0 && self.free[n].no_duplicates()
        &&& forall|n: nat, j: int|
            self.free.dom().contains(n) && 0 <= j < self.free[n].len()
                ==> (#[trigger] self.free[n][j]).len
                == n
        &&& forall|f: Run| #[trigger] self.is_free(f) ==> self.within(f)
        &&& forall|f: Run, g: Run|
            #[trigger] self.is_free(f) && #[trigger] self.is_free(g) && f != g ==> f.disjoint(g)
    }

    /// The allocation policy. A request for no words is answered with the
    /// dangling handle. Otherwise the run freed last among those of length `n`
    /// is taken; where there is none, `n` words are cut at the cursor of the
    /// newest chunk; where they do not fit below `ARENA_CHUNK_WORDS`, a new
    /// chunk of `max(ARENA_CHUNK_WORDS, n)` words is opened first.
    pub open spec fn allocate(self, n: nat) -> (Layout, Run) {
        if n == 0 {
            (self, Run::dangling_spec())
        } else if self.free_runs(n).len() > 0 {
            (
                Layout { free: self.free.insert(n, self.free_runs(n).drop_last()), ..self },
                self.free_runs(n).last(),
            )
        } else if self.cursor + n > ARENA_CHUNK_WORDS {
            (
                Layout {
                    chunk_lens: self.chunk_lens.push(
                        if n > ARENA_CHUNK_WORDS {
                            n
                        } else {
                            ARENA_CHUNK_WORDS as nat
                        },
                    ),
                    cursor: n,
                    free: self.free,
                },
                Run { chunk: self.chunk_lens.len() as usize, start: 0, len: n as usize },
            )
        } else {
            (
                Layout { cursor: self.cursor + n, ..self },
                Run {
                    chunk: (self.chunk_lens.len() - 1) as usize,
                    start: self.cursor as usize,
                    len: n as usize,
                },
            )
        }
    }

    /// The release policy: a run that holds words goes on top of the stack for
    /// its length. Runs are neither split nor merged.
    pub open spec fn free(self, r: Run) -> Layout {
        if r.len == 0 {
            self
        } else {
            Layout {
                free: self.free.insert(r.len as nat, self.free_runs(r.len as nat).push(r)),
                ..self
            }
        }
    }

    /// Allocation hands out a run that nobody holds and takes none away.
    pub proof fn lemma_allocate(self, n: nat)
        requires
            self.wf(),
            n <= usize::MAX,
            self.chunk_lens.len() <= usize::MAX,
        ensures
            self.allocate(n).0.wf(),
            self.allocate(n).0.leased(self.allocate(n).1),
            self.allocate(n).1.len == n,
            forall|r: Run| #[trigger]
                self.leased(r) ==> self.allocate(n).0.leased(r) && r.disjoint(self.allocate(n).1),
    {
        let (post, run) = self.allocate(n);
        if n == 0 {
        } else if self.free_runs(n).len() > 0 {
            let old_runs = self.free_runs(n);
            let new_runs = old_runs.drop_last();
            assert(self.free.dom().contains(n));
            assert(old_runs[old_runs.len() - 1] == run);
            assert(self.is_free(run));
            assert forall|f: Run| #[trigger] post.is_free(f) implies self.is_free(f) && f
                != run by {
                if f.len == n {
                    let j = choose|j: int| 0 <= j < new_runs.len() && new_runs[j] == f;
                    assert(old_runs[j] == f);
                }
            }
            assert(new_runs.no_duplicates());
            assert forall|m: nat, j: int|
                post.free.dom().contains(m) && 0 <= j < post.free[m].len() implies (
            #[trigger] post.free[m][j]).len == m by {
                if m == n {
                    assert(new_runs[j] == old_runs[j]);
                }
            }
            assert(post.wf());
            assert(post.leased(run));
            assert forall|r: Run| #[trigger] self.leased(r) implies post.leased(r) && r.disjoint(
                run,
            ) by {
                if r.len != 0 {
                    assert forall|f: Run| #[trigger] post.is_free(f) implies f.disjoint(r) by {
                        assert(self.is_free(f));
                    }
                }
            }
        } else {
            assert forall|f: Run| #[trigger] post.is_free(f) implies self.is_free(f) by {}
            assert forall|f: Run| #[trigger] self.is_free(f) implies post.within(f) && f.disjoint(
                run,
            ) by {
                assert(self.within(f));
            }
            assert(post.wf());
            assert forall|r: Run| #[trigger] self.leased(r) implies post.leased(r) && r.disjoint(
                run,
            ) by {
                if r.len != 0 {
                    assert(self.within(r));
                    assert forall|f: Run| #[trigger] post.is_free(f) implies f.disjoint(r) by {
                        assert(self.is_free(f));
                    }
                }
            }
        }
    }

    /// Release keeps every other lease, and the released run is leased no
    /// more.
    pub proof fn lemma_free(self, r: Run)
        requires
            self.wf(),
            self.leased(r),
        ensures
            self.free(r).wf(),
            r.len > 0 ==> self.free(r).is_free(r) && !self.free(r).leased(r),
            forall|q: Run| #[trigger]
                self.leased(q) && q.disjoint(r) ==> self.free(r).leased(q),
    {
        let post = self.free(r);
        if r.len > 0 {
            let n = r.len as nat;
            let old_runs = self.free_runs(n);
            let new_runs = old_runs.push(r);
            assert(new_runs[new_runs.len() - 1] == r);
            assert(post.is_free(r));
            assert(!old_runs.contains(r)) by {
                if old_runs.contains(r) {
                    assert(self.is_free(r));
                    assert(r.disjoint(r));
                }
            }
            assert forall|f: Run| #[trigger] post.is_free(f) implies self.is_free(f) || f == r by {
                if f.len == n {
                    let j = choose|j: int| 0 <= j < new_runs.len() && new_runs[j] == f;
                    if j < old_runs.len() {
                        assert(old_runs[j] == f);
                    }
                }
            }
            assert(new_runs.no_duplicates()) by {
                assert forall|i: int, j: int|
                    0 <= i < new_runs.len() && 0 <= j < new_runs.len() && i != j implies new_runs[i]
                    != new_runs[j] by {
                    if i < old_runs.len() && j < old_runs.len() {
                    } else if i < old_runs.len() {
                        assert(old_runs.contains(new_runs[i]));
                    } else {
                        assert(old_runs.contains(new_runs[j]));
                    }
                }
            }
            assert forall|m: nat, j: int|
                post.free.dom().contains(m) && 0 <= j < post.free[m].len() implies (
            #[trigger] post.free[m][j]).len == m by {
                if m == n && j < old_runs.len() {
                    assert(new_runs[j] == old_runs[j]);
                    if !self.free.dom().contains(n) {
                        assert(old_runs.len() == 0);
                    }
                }
            }
            assert forall|f: Run, g: Run|
                #[trigger] post.is_free(f) && #[trigger] post.is_free(g) && f != g
                    implies f.disjoint(
                g,
            ) by {
                assert(self.is_free(f) || f == r);
                assert(self.is_free(g) || g == r);
            }
            assert(post.wf());
            assert forall|q: Run| #[trigger] self.leased(q) && q.disjoint(r) implies post.leased(
                q,
            ) by {
                if q.len != 0 {
                    assert forall|f: Run| #[trigger] post.is_free(f) implies f.disjoint(q) by {
                        assert(self.is_free(f) || f == r);
                    }
                }
            }
        }
    }
}

/// Every word of `s` is zero.
pub open spec fn all_zero(s: Seq<u64>) -> bool {
    forall|i: int| 0 <= i < s.len() ==> #[trigger] s[i] == 0
}

spec fn has_bucket(list: Seq<(usize, Vec<Run>)>, n: nat, b: int) -> bool {
    0 <= b < list.len() && list[b].0 == n
}

spec fn distinct_sizes(list: Seq<(usize, Vec<Run>)>) -> bool {
    forall|a: int, b: int| 0 <= a < b < list.len() ==> (#[trigger] list[a]).0
        != (#[trigger] list[b]).0
}

spec fn free_map(list: Seq<(usize, Vec<Run>)>) -> Map<nat, Seq<Run>> {
    Map::new(
        |n: nat| exists|b: int| has_bucket(list, n, b),
        |n: nat| list[choose|b: int| has_bucket(list, n, b)].1@,
    )
}

proof fn lemma_free_map(list: Seq<(usize, Vec<Run>)>)
    requires
        distinct_sizes(list),
    ensures
        forall|b: int|
            0 <= b < list.len() ==> free_map(list).dom().contains(list[b].0 as nat) && free_map(
                list,
            )[list[b].0 as nat] == (#[trigger] list[b]).1@,
        forall|n: nat| #[trigger]
            free_map(list).dom().contains(n) ==> exists|b: int| has_bucket(list, n, b),
{
    assert forall|b: int| 0 <= b < list.len() implies free_map(list).dom().contains(
        list[b].0 as nat,
    ) && free_map(list)[list[b].0 as nat] == (#[trigger] list[b]).1@ by {
        let n = list[b].0 as nat;
        assert(has_bucket(list, n, b));
        let c = choose|c: int| has_bucket(list, n, c);
        assert(has_bucket(list, n, c));
        if c < b {
            assert(list[c].0 != list[b].0);
        } else if b < c {
            assert(list[b].0 != list[c].0);
        }
    }
}

proof fn lemma_free_map_update(
    pre: Seq<(usize, Vec<Run>)>,
    post: Seq<(usize, Vec<Run>)>,
    b: int,
)
    requires
        distinct_sizes(pre),
        0 <= b < pre.len(),
        post.len() == pre.len(),
        forall|a: int| 0 <= a < pre.len() && a != b ==> post[a] == pre[a],
        post[b].0 == pre[b].0,
    ensures
        distinct_sizes(post),
        free_map(post) == free_map(pre).insert(pre[b].0 as nat, post[b].1@),
{
    assert forall|x: int, y: int| 0 <= x < y < post.len() implies (#[trigger] post[x]).0 != (
    #[trigger] post[y]).0 by {
        assert(pre[x].0 != pre[y].0);
    }
    lemma_free_map(pre);
    lemma_free_map(post);
    let m1 = free_map(post);
    let m2 = free_map(pre).insert(pre[b].0 as nat, post[b].1@);
    assert forall|n: nat| m1.dom().contains(n) <==> m2.dom().contains(n) by {
        if m1.dom().contains(n) {
            let c = choose|c: int| has_bucket(post, n, c);
            assert(has_bucket(pre, n, c));
        }
        if m2.dom().contains(n) {
            if n == pre[b].0 {
                assert(has_bucket(post, n, b));
            } else {
                let c = choose|c: int| has_bucket(pre, n, c);
                assert(has_bucket(post, n, c));
            }
        }
    }
    assert forall|n: nat| m1.dom().contains(n) implies m1[n] == m2[n] by {
        let c = choose|c: int| has_bucket(post, n, c);
        assert(m1[n] == post[c].1@);
        if c != b {
            assert(pre[c] == post[c]);
            assert(pre[c].0 != pre[b].0);
        }
    }
    assert(m1 =~= m2);
}

proof fn lemma_free_map_push(pre: Seq<(usize, Vec<Run>)>, entry: (usize, Vec<Run>))
    requires
        distinct_sizes(pre),
        forall|b: int| !has_bucket(pre, entry.0 as nat, b),
    ensures
        distinct_sizes(pre.push(entry)),
        free_map(pre.push(entry)) == free_map(pre).insert(entry.0 as nat, entry.1@),
{
    let post = pre.push(entry);
    assert forall|x: int, y: int| 0 <= x < y < post.len() implies (#[trigger] post[x]).0 != (
    #[trigger] post[y]).0 by {
        if y < pre.len() {
            assert(pre[x].0 != pre[y].0);
        } else {
            assert(!has_bucket(pre, entry.0 as nat, x));
        }
    }
    lemma_free_map(pre);
    lemma_free_map(post);
    let m1 = free_map(post);
    let m2 = free_map(pre).insert(entry.0 as nat, entry.1@);
    assert forall|n: nat| m1.dom().contains(n) <==> m2.dom().contains(n) by {
        if m1.dom().contains(n) {
            let c = choose|c: int| has_bucket(post, n, c);
            if c < pre.len() {
                assert(has_bucket(pre, n, c));
            }
        }
        if m2.dom().contains(n) {
            if n == entry.0 {
                assert(has_bucket(post, n, pre.len() as int));
            } else {
                let c = choose|c: int| has_bucket(pre, n, c);
                assert(has_bucket(post, n, c));
            }
        }
    }
    assert forall|n: nat| m1.dom().contains(n) implies m1[n] == m2[n] by {
        let c = choose|c: int| has_bucket(post, n, c);
        assert(m1[n] == post[c].1@);
        if c < pre.len() {
            assert(pre[c] == post[c]);
            assert(has_bucket(pre, n, c));
        }
    }
    assert(m1 =~= m2);
}

/// The arena: chunks of words, a bump cursor into the newest chunk, and the
/// freed runs, one bucket for each run length.
///
/// Words that were never handed out, and words of freed runs, are zero.
pub struct WordArena {
    chunks: Vec<Vec<u64>>,
    offset: usize,
    free_list: Vec<(usize, Vec<Run>)>,
}

/// In `post` every run that was leased in `pre` and shares no word with
/// `gone` is still leased, holds the words it held, and shares no word with
/// `fresh`.
pub open spec fn keeps(pre: &WordArena, post: &WordArena, gone: Run, fresh: Run) -> bool {
    forall|r: Run| #[trigger]
        pre.layout().leased(r) && r.disjoint(gone) ==> post.layout().leased(r) && post.region(r)
            == pre.region(r) && r.disjoint(fresh)
}

impl WordArena {
    /// Word `k` of chunk `c`.
    pub closed spec fn cell(&self, c: int, k: int) -> u64 {
        self.chunks@[c]@[k]
    }

    /// The words behind `r`.
    pub open spec fn region(&self, r: Run) -> Seq<u64> {
        Seq::new(r.len as nat, |i: int| self.cell(r.chunk as int, r.start + i))
    }

    spec fn tail(&self) -> Run {
        Run {
            chunk: (self.chunks@.len() - 1) as usize,
            start: self.offset,
            len: (self.chunks@.last()@.len() - self.offset) as usize,
        }
    }

    /// What the arena has handed out and what it holds back.
    pub closed spec fn layout(&self) -> Layout {
        Layout {
            chunk_lens: Seq::new(self.chunks@.len(), |c: int| self.chunks@[c]@.len()),
            cursor: self.offset as nat,
            free: free_map(self.free_list@),
        }
    }

    /// `r` may be held by a caller of this arena.
    #[verifier::inline]
    pub open spec fn leased(&self, r: Run) -> bool {
        self.layout().leased(r)
    }

    /// The arena is consistent: its layout is (see `lemma_layout_wf`), and
    /// the words that no caller holds are zero (see
    /// `lemma_unleased_words_zero`).
    pub closed spec fn wf(&self) -> bool {
        &&& self.layout().wf()
        &&& distinct_sizes(self.free_list@)
        &&& forall|f: Run| #[trigger] self.layout().is_free(f) ==> all_zero(self.region(f))
        &&& self.chunks@.len() > 0 ==> all_zero(self.region(self.tail()))
    }

    /// The layout tells the lengths of the chunks, and the unused end of the
    /// newest chunk is the run from the cursor to its end.
    proof fn lemma_lens(&self)
        requires
            self.layout().wf(),
        ensures
            self.layout().chunk_lens.len() == self.chunks@.len(),
            self.chunks@.len() <= usize::MAX,
            forall|c: int|
                0 <= c < self.chunks@.len() ==> #[trigger] self.layout().chunk_lens[c]
                    == self.chunks@[c]@.len() && self.chunks@[c]@.len() <= usize::MAX,
            self.chunks@.len() > 0 ==> self.tail().chunk == self.chunks@.len() - 1
                && self.tail().start == self.offset && self.tail().len
                == self.chunks@.last()@.len() - self.offset,
    {
        assert(self.chunks.len() == self.chunks@.len());
        assert forall|c: int| 0 <= c < self.chunks@.len() implies #[trigger]
            self.layout().chunk_lens[c] == self.chunks@[c]@.len() && self.chunks@[c]@.len()
            <= usize::MAX by {
            assert(self.chunks@[c].len() == self.chunks@[c]@.len());
        }
        if self.chunks@.len() > 0 {
            assert(self.layout().chunk_lens.last() == self.chunks@.last()@.len());
        }
    }

    /// A leased run that holds words lies inside its chunk, below the cursor
    /// where the chunk is the newest.
    proof fn lemma_inside(&self, run: Run)
        requires
            self.wf(),
            self.leased(run),
            run.len > 0,
        ensures
            run.chunk < self.chunks@.len(),
            run.start + run.len <= self.chunks@[run.chunk as int]@.len(),
            run.chunk + 1 == self.chunks@.len() ==> run.start + run.len <= self.offset,
            run.start + run.len <= usize::MAX,
    {
        self.lemma_lens();
        assert(self.layout().within(run));
    }

    /// A consistent arena has a consistent layout, with no more chunks than
    /// can be counted. What is proved of layouts, such as
    /// [`Layout::lemma_allocate`] and [`Layout::lemma_free`], therefore holds
    /// of the layout of an arena.
    pub proof fn lemma_layout_wf(&self)
        requires
            self.wf(),
        ensures
            self.layout().wf(),
            self.layout().chunk_lens.len() <= usize::MAX,
    {
        self.lemma_lens();
    }

    /// Words that no caller holds are zero: those of a freed run, and those
    /// of the newest chunk that the cursor has not reached.
    pub proof fn lemma_unleased_words_zero(&self, r: Run)
        requires
            self.wf(),
            self.layout().is_free(r) || (r.chunk + 1 == self.layout().chunk_lens.len()
                && self.layout().cursor <= r.start && r.start + r.len
                <= self.layout().chunk_lens.last()),
        ensures
            all_zero(self.region(r)),
    {
        if !self.layout().is_free(r) {
            let t = self.tail();
            self.lemma_lens();
            assert forall|i: int| 0 <= i < r.len implies #[trigger] self.region(r)[i] == 0 by {
                assert(self.region(t)[r.start - t.start + i] == 0);
            }
        }
    }

    /// An arena without chunks. Nothing is allocated until the first request.
    pub fn new() -> (arena: WordArena)
        ensures
            arena.wf(),
            arena.layout() == Layout::empty(),
    {
        let arena = WordArena {
            chunks: Vec::new(),
            offset: ARENA_CHUNK_WORDS,
            free_list: Vec::new(),
        };
        proof {
            assert(arena.layout().free =~= Map::empty());
            assert(arena.layout().chunk_lens =~= Seq::empty());
            assert(arena.layout() =~= Layout::empty());
            assert forall|f: Run| !#[trigger] arena.layout().is_free(f) by {}
        }
        arena
    }

    /// The position of the bucket that holds the freed runs of `n_words`
    /// words, if there is one.
    fn bucket_index(&self, n_words: usize) -> (found: Option<usize>)
        ensures
            match found {
                Some(b) => has_bucket(self.free_list@, n_words as nat, b as int),
                None => forall|b: int| !has_bucket(self.free_list@, n_words as nat, b),
            },
    {
        let mut b: usize = 0;
        while b < self.free_list.len()
            invariant
                b <= self.free_list@.len(),
                forall|a: int| 0 <= a < b ==> !has_bucket(self.free_list@, n_words as nat, a),
            decreases self.free_list@.len() - b,
        {
            if self.free_list[b].0 == n_words {
                return Some(b);
            }
            b += 1;
        }
        None
    }

    /// Reads word `i` of a leased run.
    pub fn load(&self, run: Run, i: usize) -> (word: u64)
        requires
            self.wf(),
            self.leased(run),
            i < run.len,
        ensures
            word == self.region(run)[i as int],
    {
        proof {
            self.lemma_inside(run);
        }
        self.chunks[run.chunk][run.start + i]
    }

    /// Writes word `i` of a leased run. No other run changes.
    pub fn store(&mut self, run: Run, i: usize, word: u64)
        requires
            old(self).wf(),
            old(self).leased(run),
            i < run.len,
        ensures
            final(self).wf(),
            final(self).layout() == old(self).layout(),
            final(self).region(run) == old(self).region(run).update(i as int, word),
            keeps(old(self), final(self), run, run),
    {
        proof {
            self.lemma_inside(run);
        }
        self.chunks[run.chunk][run.start + i] = word;
        proof {
            old(self).lemma_lens();
            assert(self.layout().chunk_lens =~= old(self).layout().chunk_lens);
            assert(self.layout() =~= old(self).layout());
            self.lemma_lens();
            assert(self.region(run) =~= old(self).region(run).update(i as int, word));
            assert forall|r: Run| #[trigger] old(self).leased(r) && r.disjoint(run) implies
                self.region(r) == old(self).region(r) by {
                if r.len > 0 {
                    old(self).lemma_inside(r);
                }
                assert(self.region(r) =~= old(self).region(r));
            }
            assert forall|f: Run| #[trigger] self.layout().is_free(f) implies all_zero(
                self.region(f),
            ) by {
                assert(old(self).layout().within(f));
                assert(f.disjoint(run));
                assert(self.region(f) =~= old(self).region(f));
            }
            if self.chunks@.len() > 0 {
                assert(self.region(self.tail()) =~= old(self).region(old(self).tail()));
            }
        }
    }

    /// The first `n_words` words of a leased run.
    pub fn slice(&self, run: Run, n_words: usize) -> (words: &[u64])
        requires
            self.wf(),
            self.leased(run),
            n_words <= run.len,
        ensures
            words@ == self.region(run).take(n_words as int),
    {
        if n_words == 0 {
            let empty: &[u64] = &[];
            assert(empty@ =~= self.region(run).take(0));
            empty
        } else {
            proof {
                self.lemma_inside(run);
            }
            let words = vstd::slice::slice_subrange(
                self.chunks[run.chunk].as_slice(),
                run.start,
                run.start + n_words,
            );
            assert(words@ =~= self.region(run).take(n_words as int));
            words
        }
    }

    /// Writes `word` to the words `from..to` of a leased run. No other run
    /// changes.
    pub fn fill(&mut self, run: Run, from: usize, to: usize, word: u64)
        requires
            old(self).wf(),
            old(self).leased(run),
            from <= to <= run.len,
        ensures
            final(self).wf(),
            final(self).layout() == old(self).layout(),
            final(self).region(run) == Seq::new(
                run.len as nat,
                |i: int|
                    if from <= i < to {
                        word
                    } else {
                        old(self).region(run)[i]
                    },
            ),
            keeps(old(self), final(self), run, run),
    {
        let mut k: usize = from;
        while k < to
            invariant
                from <= k <= to <= run.len,
                old(self).leased(run),
                self.wf(),
                self.layout() == old(self).layout(),
                self.region(run) == Seq::new(
                    run.len as nat,
                    |i: int|
                        if from <= i < k {
                            word
                        } else {
                            old(self).region(run)[i]
                        },
                ),
                forall|r: Run| #[trigger]
                    old(self).leased(r) && r.disjoint(run) ==> self.region(r)
                        == old(self).region(r),
            decreases to - k,
        {
            self.store(run, k, word);
            k += 1;
        }
    }

    /// Copies the first `n_words` words of `src` to the front of `dst`. No
    /// run but `dst` changes.
    pub fn copy(&mut self, src: Run, dst: Run, n_words: usize)
        requires
            old(self).wf(),
            old(self).leased(src),
            old(self).leased(dst),
            src.disjoint(dst),
            n_words <= src.len,
            n_words <= dst.len,
        ensures
            final(self).wf(),
            final(self).layout() == old(self).layout(),
            final(self).region(dst) == Seq::new(
                dst.len as nat,
                |i: int|
                    if i < n_words {
                        old(self).region(src)[i]
                    } else {
                        old(self).region(dst)[i]
                    },
            ),
            keeps(old(self), final(self), dst, dst),
    {
        let mut k: usize = 0;
        while k < n_words
            invariant
                k <= n_words,
                n_words <= src.len,
                n_words <= dst.len,
                src.disjoint(dst),
                old(self).leased(src),
                old(self).leased(dst),
                self.wf(),
                self.layout() == old(self).layout(),
                self.region(dst) == Seq::new(
                    dst.len as nat,
                    |i: int|
                        if i < k {
                            old(self).region(src)[i]
                        } else {
                            old(self).region(dst)[i]
                        },
                ),
                forall|r: Run| #[trigger]
                    old(self).leased(r) && r.disjoint(dst) ==> self.region(r)
                        == old(self).region(r),
            decreases n_words - k,
        {
            let word = self.load(src, k);
            self.store(dst, k, word);
            k += 1;
        }
    }

    proof fn lemma_same_region(&self, other: &WordArena, r: Run)
        requires
            r.len > 0 ==> self.chunks@[r.chunk as int] == other.chunks@[r.chunk as int],
        ensures
            self.region(r) == other.region(r),
    {
        assert(self.region(r) =~= other.region(r));
    }

    /// Leases a zero-filled run of exactly `n_words` words, as
    /// [`Layout::allocate`] decides. Every run leased before stays leased,
    /// keeps its words and shares none with the new run.
    pub fn allocate(&mut self, n_words: usize) -> (run: Run)
        requires
            old(self).wf(),
        ensures
            final(self).wf(),
            final(self).layout() == old(self).layout().allocate(n_words as nat).0,
            run == old(self).layout().allocate(n_words as nat).1,
            run.len == n_words,
            final(self).leased(run),
            all_zero(final(self).region(run)),
            keeps(old(self), final(self), Run::dangling(), run),
    {
        if n_words == 0 {
            return Run::dangling();
        }
        proof {
            lemma_free_map(self.free_list@);
            assert(self.chunks.len() == self.chunks@.len());
        }
        let ghost before = old(self).layout();
        match self.bucket_index(n_words) {
            Some(b) => {
                match self.free_list[b].1.pop() {
                    Some(run) => {
                        proof {
                            let runs = old(self).free_list@[b as int].1@;
                            assert(before.free_runs(n_words as nat) == runs);
                            assert(runs.drop_last() =~= runs.subrange(0, runs.len() - 1));
                            lemma_free_map_update(old(self).free_list@, self.free_list@, b as int);
                            assert(self.layout().chunk_lens =~= before.chunk_lens);
                            assert(self.layout() =~= before.allocate(n_words as nat).0);
                            before.lemma_allocate(n_words as nat);
                            assert(before.is_free(run));
                            assert forall|r: Run| self.region(r) == old(self).region(r) by {
                                self.lemma_same_region(old(self), r);
                            }
                            assert forall|f: Run| #[trigger]
                                self.layout().is_free(f) implies all_zero(self.region(f)) by {
                                if f.len == n_words {
                                    let rest = runs.drop_last();
                                    let j = choose|j: int| 0 <= j < rest.len() && rest[j] == f;
                                    assert(runs[j] == f);
                                }
                                assert(before.is_free(f));
                            }
                            if self.chunks@.len() > 0 {
                                assert(self.tail() == old(self).tail());
                            }
                        }
                        return run;
                    },
                    None => {
                        proof {
                            lemma_free_map_update(old(self).free_list@, self.free_list@, b as int);
                            assert(free_map(self.free_list@) =~= free_map(old(self).free_list@));
                        }
                    },
                }
            },
            None => {},
        }
        assert(free_map(self.free_list@) == free_map(old(self).free_list@));
        assert(distinct_sizes(self.free_list@));
        assert(before.free_runs(n_words as nat).len() == 0);
        if n_words > ARENA_CHUNK_WORDS || self.offset > ARENA_CHUNK_WORDS - n_words {
            let size = if n_words > ARENA_CHUNK_WORDS {
                n_words
            } else {
                ARENA_CHUNK_WORDS
            };
            self.chunks.push(vec![0u64; size]);
            self.offset = 0;
        }
        proof {
            assert(self.chunks.len() == self.chunks@.len());
            assert(self.chunks@.last().len() == self.chunks@.last()@.len());
            if old(self).chunks@.len() > 0 {
                assert(before.chunk_lens.last() == old(self).chunks@.last()@.len());
            }
        }
        let run = Run { chunk: self.chunks.len() - 1, start: self.offset, len: n_words };
        self.offset += n_words;
        proof {
            assert(self.layout().chunk_lens =~= before.allocate(n_words as nat).0.chunk_lens);
            assert(self.layout() =~= before.allocate(n_words as nat).0);
            before.lemma_allocate(n_words as nat);
            assert forall|c: int| 0 <= c < old(self).chunks@.len() implies self.chunks@[c]
                == old(self).chunks@[c] by {}
            assert forall|r: Run| #[trigger] before.leased(r) implies self.region(r)
                == old(self).region(r) by {
                if r.len > 0 {
                    old(self).lemma_inside(r);
                }
                self.lemma_same_region(old(self), r);
            }
            assert forall|f: Run| #[trigger] self.layout().is_free(f) implies all_zero(
                self.region(f),
            ) by {
                assert(before.is_free(f));
                assert(before.within(f));
                assert(before.chunk_lens[f.chunk as int]
                    == old(self).chunks@[f.chunk as int]@.len());
                self.lemma_same_region(old(self), f);
            }
            let last = self.chunks@.last()@;
            assert forall|k: int| run.start <= k < last.len() implies #[trigger] last[k] == 0 by {
                if self.chunks@.len() == old(self).chunks@.len() {
                    let t0 = old(self).tail();
                    assert(old(self).region(t0)[k - old(self).offset] == 0);
                }
            }
            assert(all_zero(self.region(run))) by {
                assert forall|i: int| 0 <= i < run.len implies #[trigger] self.region(run)[i]
                    == 0 by {
                    assert(last[run.start + i] == 0);
                }
            }
            assert(all_zero(self.region(self.tail()))) by {
                let t = self.tail();
                assert forall|i: int| 0 <= i < t.len implies #[trigger] self.region(t)[i] == 0 by {
                    assert(last[t.start + i] == 0);
                }
            }
        }
        run
    }

    /// Takes a leased run back. The first `used_words` words are cleared; the
    /// rest are zero already. The run then waits under its length, as
    /// [`Layout::free`] says, for a later request of exactly that length.
    /// An empty run is ignored.
    pub fn free(&mut self, run: Run, used_words: usize)
        requires
            old(self).wf(),
            old(self).leased(run),
            used_words <= run.len,
            forall|i: int| used_words <= i < run.len ==> old(self).region(run)[i] == 0,
        ensures
            final(self).wf(),
            final(self).layout() == old(self).layout().free(run),
            run.len == 0 ==> *final(self) == *old(self),
            keeps(old(self), final(self), run, Run::dangling()),
    {
        if run.len == 0 {
            return ;
        }
        if used_words > 0 {
            self.fill(run, 0, used_words, 0);
        }
        let ghost mid = *self;
        let ghost before = old(self).layout();
        proof {
            lemma_free_map(self.free_list@);
            assert(all_zero(self.region(run)));
        }
        match self.bucket_index(run.len) {
            Some(b) => {
                self.free_list[b].1.push(run);
                proof {
                    lemma_free_map_update(mid.free_list@, self.free_list@, b as int);
                }
            },
            None => {
                self.free_list.push((run.len, vec![run]));
                proof {
                    let entry = self.free_list@.last();
                    assert(!before.free.dom().contains(run.len as nat));
                    assert(entry.1@ =~= Seq::<Run>::empty().push(run));
                    lemma_free_map_push(mid.free_list@, entry);
                }
            },
        }
        proof {
            assert(self.layout().chunk_lens =~= before.chunk_lens);
            assert(self.layout() =~= before.free(run));
            before.lemma_free(run);
            assert forall|r: Run| self.region(r) == mid.region(r) by {
                self.lemma_same_region(&mid, r);
            }
            assert forall|f: Run| #[trigger] self.layout().is_free(f) implies all_zero(
                self.region(f),
            ) by {
                if f != run {
                    if f.len == run.len {
                        let runs = before.free_runs(run.len as nat);
                        let more = runs.push(run);
                        let j = choose|j: int| 0 <= j < more.len() && more[j] == f;
                        assert(runs[j] == f);
                    }
                    assert(before.is_free(f));
                    assert(mid.layout().is_free(f));
                }
            }
            if self.chunks@.len() > 0 {
                assert(self.tail() == mid.tail());
            }
        }
    }
}

/// Leases `n_words` zero-filled words from `arena`.
pub fn arena_alloc(arena: &mut WordArena, n_words: usize) -> (run: Run)
    requires
        old(arena).wf(),
    ensures
        final(arena).wf(),
        final(arena).layout() == old(arena).layout().allocate(n_words as nat).0,
        run == old(arena).layout().allocate(n_words as nat).1,
        run.len == n_words,
        final(arena).leased(run),
        all_zero(final(arena).region(run)),
        keeps(old(arena), final(arena), Run::dangling(), run),
{
    arena.allocate(n_words)
}

/// Returns a leased run to `arena`, of which the first `used_words` words may
/// hold data.
pub fn arena_free(arena: &mut WordArena, run: Run, used_words: usize)
    requires
        old(arena).wf(),
        old(arena).leased(run),
        used_words <= run.len,
        forall|i: int| used_words <= i < run.len ==> old(arena).region(run)[i] == 0,
    ensures
        final(arena).wf(),
        final(arena).layout() == old(arena).layout().free(run),
        run.len == 0 ==> *final(arena) == *old(arena),
        keeps(old(arena), final(arena), run, Run::dangling()),
{
    arena.free(run, used_words)
}

} // verus!
