use crate::block::Block;
use crate::board::Board;
use crate::layout::{lemma_total_area_remove, total_area, Layout};
use crate::rng::{lemma_shuffled_is_permutation, shuffle, shuffle_draws, shuffled, Rng};
use vstd::prelude::*;

verus! {

/// The candidates among the first `n` blocks of `rem`, ascending.
pub open spec fn kinds_upto(rem: Seq<Block>, n: nat) -> Seq<usize>
    decreases n,
{
    if n == 0 {
        Seq::empty()
    } else if Layout::is_candidate(rem, n - 1) {
        kinds_upto(rem, (n - 1) as nat).push((n - 1) as usize)
    } else {
        kinds_upto(rem, (n - 1) as nat)
    }
}

/// The candidates of `rem`: the index of the first block of each kind, in
/// the order in which the kinds first appear.
pub open spec fn kinds(rem: Seq<Block>) -> Seq<usize> {
    kinds_upto(rem, rem.len())
}

/// Every entry of `kinds_upto` is a candidate below `n`, and every candidate
/// below `n` is an entry.
pub proof fn lemma_kinds_upto(rem: Seq<Block>, n: nat)
    requires
        n <= rem.len(),
        rem.len() <= usize::MAX,
    ensures
        forall|c: int|
            0 <= c < kinds_upto(rem, n).len() ==> Layout::is_candidate(
                rem,
                #[trigger] kinds_upto(rem, n)[c] as int,
            ) && kinds_upto(rem, n)[c] < n,
        forall|k: int|
            0 <= k < n && #[trigger] Layout::is_candidate(rem, k) ==> kinds_upto(rem, n).contains(
                k as usize,
            ),
    decreases n,
{
    if n > 0 {
        let before = kinds_upto(rem, (n - 1) as nat);
        let now = kinds_upto(rem, n);
        lemma_kinds_upto(rem, (n - 1) as nat);
        assert forall|k: int| 0 <= k < n && #[trigger] Layout::is_candidate(rem, k) implies now.contains(
            k as usize,
        ) by {
            if k < n - 1 {
                assert(before.contains(k as usize));
                let c = choose|c: int| 0 <= c < before.len() && before[c] == k as usize;
                assert(now[c] == k as usize);
            } else {
                assert(now[before.len() as int] == k as usize);
            }
        }
    }
}

impl Layout {
    /// Whether `k` indexes a block of `rem` that is the first of its kind:
    /// no earlier block has the same canonical dimensions.
    pub open spec fn is_candidate(rem: Seq<Block>, k: int) -> bool {
        &&& 0 <= k < rem.len()
        &&& forall|j: int| 0 <= j < k ==> !(#[trigger] rem[j]).spec_same_kind(&rem[k])
    }

    /// One step of the search: block `b`, which is candidate `k` of `rem` as
    /// it lies or turned, fits at the first free cell (`x`, `y`).
    pub open spec fn is_move(self, rem: Seq<Block>, k: int, b: Block, x: nat, y: nat) -> bool {
        &&& Self::is_candidate(rem, k)
        &&& (b == rem[k] || b == rem[k].turned())
        &&& self.is_first_free(x, y)
        &&& self.fits(b, x, y)
    }

    /// Whether the search can reach `end` from this layout by placing every
    /// block of `rem`: each step places a candidate at the first free cell
    /// and goes on with the other blocks.
    pub open spec fn completes(self, rem: Seq<Block>, end: Layout) -> bool
        decreases rem.len(),
    {
        if rem.len() == 0 {
            end == self
        } else {
            exists|k: int, b: Block, x: nat, y: nat|
                0 <= k < rem.len() && #[trigger] self.is_move(rem, k, b, x, y) && self.place(
                    b,
                    x,
                    y,
                ).completes(rem.remove(k), end)
        }
    }

    /// Whether the search can place every block of `rem`.
    pub open spec fn solvable(self, rem: Seq<Block>) -> bool {
        exists|end: Layout| self.completes(rem, end)
    }

    /// Whether the board has an uncovered cell.
    pub open spec fn has_free(self) -> bool {
        exists|x: nat, y: nat| self.is_first_free(x, y)
    }

    /// The first uncovered cell in row-major order, where there is one.
    pub open spec fn first_free(self) -> (nat, nat) {
        choose|x: nat, y: nat| self.is_first_free(x, y)
    }

    /// What the search does from this layout with the blocks `rem` and a
    /// generator in `state`: the layout it ends with, if it places every
    /// block, and the generator's state afterwards. The candidates at the
    /// first free cell are tried in the order of `kinds`, shuffled when
    /// `randomize` is set; the first that leads to success is kept.
    pub open spec fn search(self, rem: Seq<Block>, randomize: bool, state: u64) -> (
        Option<Layout>,
        u64,
    )
        decreases rem.len(), 2nat, 0nat,
    {
        if rem.len() == 0 {
            (Some(self), state)
        } else if !self.has_free() {
            (None, state)
        } else if randomize {
            self.try_candidates(
                rem,
                shuffled(kinds(rem), state),
                0,
                self.first_free().0,
                self.first_free().1,
                randomize,
                Rng::state_after(state, shuffle_draws(kinds(rem).len())),
            )
        } else {
            self.try_candidates(
                rem,
                kinds(rem),
                0,
                self.first_free().0,
                self.first_free().1,
                randomize,
                state,
            )
        }
    }

    /// The search over the candidates `order[from..]` at anchor (`x`, `y`):
    /// each is tried as it lies, then turned.
    pub open spec fn try_candidates(
        self,
        rem: Seq<Block>,
        order: Seq<usize>,
        from: nat,
        x: nat,
        y: nat,
        randomize: bool,
        state: u64,
    ) -> (Option<Layout>, u64)
        decreases rem.len(), 1nat, order.len() - from,
    {
        if from >= order.len() || order[from as int] >= rem.len() {
            (None, state)
        } else {
            let k = order[from as int] as int;
            let flat = self.try_block(rem[k], rem.remove(k), x, y, randomize, state);
            if flat.0 is Some {
                flat
            } else {
                let turned = self.try_block(
                    rem[k].turned(),
                    rem.remove(k),
                    x,
                    y,
                    randomize,
                    flat.1,
                );
                if turned.0 is Some {
                    turned
                } else {
                    self.try_candidates(rem, order, from + 1, x, y, randomize, turned.1)
                }
            }
        }
    }

    /// The search with `b` placed at anchor (`x`, `y`) and `rest` to go;
    /// nothing where `b` does not fit.
    pub open spec fn try_block(
        self,
        b: Block,
        rest: Seq<Block>,
        x: nat,
        y: nat,
        randomize: bool,
        state: u64,
    ) -> (Option<Layout>, u64)
        decreases rest.len(), 3nat, 0nat,
    {
        if self.fits(b, x, y) {
            self.place(b, x, y).search(rest, randomize, state)
        } else {
            (None, state)
        }
    }

    /// Where the search succeeds, its end can be reached by placing every
    /// block of `rem`, whatever the order of the candidates and the state of
    /// the generator. So blocks that cannot all be placed make the search
    /// fail under every order.
    pub proof fn lemma_search_sound(self, rem: Seq<Block>, randomize: bool, state: u64)
        requires
            rem.len() <= usize::MAX,
        ensures
            self.search(rem, randomize, state).0 is Some ==> self.completes(
                rem,
                self.search(rem, randomize, state).0.unwrap(),
            ),
            !self.solvable(rem) ==> self.search(rem, randomize, state).0 is None,
        decreases rem.len(), 2nat, 0nat,
    {
        if rem.len() > 0 && self.has_free() {
            let (x, y) = self.first_free();
            lemma_kinds_upto(rem, rem.len());
            if randomize {
                let order = shuffled(kinds(rem), state);
                lemma_shuffled_is_permutation(kinds(rem), state);
                assert forall|c: int| 0 <= c < order.len() implies Self::is_candidate(
                    rem,
                    #[trigger] order[c] as int,
                ) by {
                    assert(order.contains(order[c]));
                    assert(kinds(rem).contains(order[c]));
                }
                self.lemma_try_candidates_sound(
                    rem,
                    order,
                    0,
                    x,
                    y,
                    randomize,
                    Rng::state_after(state, shuffle_draws(kinds(rem).len())),
                );
            } else {
                self.lemma_try_candidates_sound(rem, kinds(rem), 0, x, y, randomize, state);
            }
        }
        let found = self.search(rem, randomize, state).0;
        if found is Some {
            assert(self.completes(rem, found.unwrap()));
        }
    }

    /// Where the search over the candidates `order[from..]` succeeds, its end
    /// can be reached by placing every block of `rem`.
    pub proof fn lemma_try_candidates_sound(
        self,
        rem: Seq<Block>,
        order: Seq<usize>,
        from: nat,
        x: nat,
        y: nat,
        randomize: bool,
        state: u64,
    )
        requires
            rem.len() <= usize::MAX,
            self.is_first_free(x, y),
            forall|c: int|
                0 <= c < order.len() ==> Self::is_candidate(rem, #[trigger] order[c] as int),
        ensures
            self.try_candidates(rem, order, from, x, y, randomize, state).0 is Some
                ==> self.completes(
                rem,
                self.try_candidates(rem, order, from, x, y, randomize, state).0.unwrap(),
            ),
        decreases rem.len(), 1nat, order.len() - from,
    {
        if from < order.len() && order[from as int] < rem.len() {
            let k = order[from as int] as int;
            assert(Self::is_candidate(rem, order[from as int] as int));
            let rest = rem.remove(k);
            let flat = self.try_block(rem[k], rest, x, y, randomize, state);
            if flat.0 is Some {
                self.place(rem[k], x, y).lemma_search_sound(rest, randomize, state);
                assert(self.is_move(rem, k, rem[k], x, y));
                assert(self.place(rem[k], x, y).completes(rest, flat.0.unwrap()));
            } else {
                let turned = self.try_block(rem[k].turned(), rest, x, y, randomize, flat.1);
                if turned.0 is Some {
                    self.place(rem[k].turned(), x, y).lemma_search_sound(rest, randomize, flat.1);
                    assert(self.is_move(rem, k, rem[k].turned(), x, y));
                    assert(self.place(rem[k].turned(), x, y).completes(rest, turned.0.unwrap()));
                } else {
                    self.lemma_try_candidates_sound(
                        rem,
                        order,
                        from + 1,
                        x,
                        y,
                        randomize,
                        turned.1,
                    );
                }
            }
        }
    }

    /// Where every block of `rem` can be placed, the search succeeds,
    /// whatever the order of the candidates and the state of the generator.
    pub proof fn lemma_search_complete(self, rem: Seq<Block>, randomize: bool, state: u64)
        requires
            rem.len() <= usize::MAX,
            self.solvable(rem),
        ensures
            self.search(rem, randomize, state).0 is Some,
        decreases rem.len(), 2nat, 0nat,
    {
        if rem.len() > 0 {
            let end = choose|end: Layout| self.completes(rem, end);
            let (k, b, mx, my) = choose|k: int, b: Block, mx: nat, my: nat|
                0 <= k < rem.len() && #[trigger] self.is_move(rem, k, b, mx, my) && self.place(
                    b,
                    mx,
                    my,
                ).completes(rem.remove(k), end);
            assert(self.has_free());
            let (x, y) = self.first_free();
            self.lemma_first_free_unique(mx, my, x, y);
            lemma_kinds_upto(rem, rem.len());
            assert(kinds(rem).contains(k as usize));
            assert(self.place(b, x, y).solvable(rem.remove(k)));
            if randomize {
                let order = shuffled(kinds(rem), state);
                lemma_shuffled_is_permutation(kinds(rem), state);
                assert(order.contains(k as usize));
                assert forall|c: int| 0 <= c < order.len() implies #[trigger] order[c]
                    < rem.len() by {
                    assert(order.contains(order[c]));
                    assert(kinds(rem).contains(order[c]));
                }
                let at = choose|at: int| 0 <= at < order.len() && order[at] == k as usize;
                self.lemma_try_candidates_complete(
                    rem,
                    order,
                    0,
                    at as nat,
                    b,
                    x,
                    y,
                    randomize,
                    Rng::state_after(state, shuffle_draws(kinds(rem).len())),
                );
            } else {
                let order = kinds(rem);
                let at = choose|at: int| 0 <= at < order.len() && order[at] == k as usize;
                self.lemma_try_candidates_complete(
                    rem,
                    order,
                    0,
                    at as nat,
                    b,
                    x,
                    y,
                    randomize,
                    state,
                );
            }
        }
    }

    /// Where the candidate `order[at]`, as it lies or turned, fits and leaves
    /// blocks that can all be placed, the search over `order[from..]`
    /// succeeds for every `from` up to `at`.
    pub proof fn lemma_try_candidates_complete(
        self,
        rem: Seq<Block>,
        order: Seq<usize>,
        from: nat,
        at: nat,
        b: Block,
        x: nat,
        y: nat,
        randomize: bool,
        state: u64,
    )
        requires
            rem.len() <= usize::MAX,
            from <= at < order.len(),
            forall|c: int| 0 <= c < order.len() ==> #[trigger] order[c] < rem.len(),
            b == rem[order[at as int] as int] || b == rem[order[at as int] as int].turned(),
            self.fits(b, x, y),
            self.place(b, x, y).solvable(rem.remove(order[at as int] as int)),
        ensures
            self.try_candidates(rem, order, from, x, y, randomize, state).0 is Some,
        decreases rem.len(), 1nat, order.len() - from,
    {
        assert(order[from as int] < rem.len());
        let k = order[from as int] as int;
        let rest = rem.remove(k);
        let flat = self.try_block(rem[k], rest, x, y, randomize, state);
        if flat.0 is None {
            let turned = self.try_block(rem[k].turned(), rest, x, y, randomize, flat.1);
            if turned.0 is None {
                if from == at {
                    if b == rem[k] {
                        self.place(b, x, y).lemma_search_complete(rest, randomize, state);
                    } else {
                        self.place(b, x, y).lemma_search_complete(rest, randomize, flat.1);
                    }
                } else {
                    self.lemma_try_candidates_complete(
                        rem,
                        order,
                        from + 1,
                        at,
                        b,
                        x,
                        y,
                        randomize,
                        turned.1,
                    );
                }
            }
        }
    }

    /// A layout has at most one first free cell.
    pub proof fn lemma_first_free_unique(self, x1: nat, y1: nat, x2: nat, y2: nat)
        requires
            self.is_first_free(x1, y1),
            self.is_first_free(x2, y2),
        ensures
            x1 == x2,
            y1 == y2,
    {
        if y1 < y2 || (y1 == y2 && x1 < x2) {
            assert(self.covered(x1 as int, y1 as int));
        } else if y2 < y1 || (y1 == y2 && x2 < x1) {
            assert(self.covered(x2 as int, y2 as int));
        }
    }

    /// On a full board the search cannot place anything more.
    pub proof fn lemma_full_unsolvable(self, rem: Seq<Block>)
        requires
            self.full(),
            rem.len() > 0,
        ensures
            !self.solvable(rem),
    {
        assert forall|end: Layout| !self.completes(rem, end) by {
            if self.completes(rem, end) {
                let (k, b, x, y) = choose|k: int, b: Block, x: nat, y: nat|
                    0 <= k < rem.len() && #[trigger] self.is_move(rem, k, b, x, y) && self.place(
                        b,
                        x,
                        y,
                    ).completes(rem.remove(k), end);
                assert(self.covered(x as int, y as int));
            }
        }
    }
}

/// Indices of the blocks that are the first of their kind, in ascending
/// order: one candidate for each distinct pair of canonical dimensions, in
/// the order in which the kinds first appear.
pub fn distinct_kinds(blocks: &Vec<Block>) -> (firsts: Vec<usize>)
    ensures
        firsts@ == kinds(blocks@),
        forall|c: int|
            0 <= c < firsts@.len() ==> Layout::is_candidate(blocks@, #[trigger] firsts@[c] as int),
        forall|k: int| #[trigger]
            Layout::is_candidate(blocks@, k) ==> firsts@.contains(k as usize),
        forall|c: int, d: int| 0 <= c < d < firsts@.len() ==> firsts@[c] < firsts@[d],
{
    let mut firsts: Vec<usize> = Vec::new();
    let mut k: usize = 0;
    while k < blocks.len()
        invariant
            k <= blocks.len(),
            firsts@ == kinds_upto(blocks@, k as nat),
            forall|c: int|
                0 <= c < firsts@.len() ==> Layout::is_candidate(
                    blocks@,
                    #[trigger] firsts@[c] as int,
                ) && firsts@[c] < k,
            forall|i: int|
                0 <= i < k && #[trigger] Layout::is_candidate(blocks@, i) ==> firsts@.contains(
                    i as usize,
                ),
            forall|c: int, d: int| 0 <= c < d < firsts@.len() ==> firsts@[c] < firsts@[d],
        decreases blocks.len() - k,
    {
        let mut seen: bool = false;
        let mut j: usize = 0;
        while j < k
            invariant
                j <= k,
                k < blocks.len(),
                seen <==> exists|i: int|
                    0 <= i < j && (#[trigger] blocks@[i]).spec_same_kind(&blocks@[k as int]),
            decreases k - j,
        {
            if blocks[j].same_kind(&blocks[k]) {
                seen = true;
            }
            j += 1;
        }
        if !seen {
            let ghost before = firsts@;
            firsts.push(k);
            proof {
                assert(Layout::is_candidate(blocks@, k as int));
                assert(firsts@[before.len() as int] == k);
                assert forall|i: int|
                    0 <= i < k + 1 && #[trigger] Layout::is_candidate(
                        blocks@,
                        i,
                    ) implies firsts@.contains(i as usize) by {
                    if i < k {
                        assert(before.contains(i as usize));
                        let c = choose|c: int| 0 <= c < before.len() && before[c] == i as usize;
                        assert(firsts@[c] == i as usize);
                    }
                }
            }
        } else {
            proof {
                assert(!Layout::is_candidate(blocks@, k as int));
            }
        }
        k += 1;
    }
    firsts
}

/// `blocks` without the entry at `index`.
fn without(blocks: &Vec<Block>, index: usize) -> (rest: Vec<Block>)
    requires
        index < blocks.len(),
    ensures
        rest@ == blocks@.remove(index as int),
{
    let mut rest: Vec<Block> = Vec::new();
    let mut i: usize = 0;
    while i < blocks.len()
        invariant
            i <= blocks.len(),
            index < blocks.len(),
            rest@.len() == (if i <= index {
                i as int
            } else {
                i - 1
            }),
            forall|j: int|
                0 <= j < rest@.len() ==> rest@[j] == (if j < index {
                    blocks@[j]
                } else {
                    blocks@[j + 1]
                }),
        decreases blocks.len() - i,
    {
        if i != index {
            rest.push(blocks[i]);
        }
        i += 1;
    }
    assert(rest@ =~= blocks@.remove(index as int));
    rest
}

/// Searches for a way to place every block of `all_blocks` on `board`, each
/// as it lies or turned. At each step only the first free cell is tried as
/// an anchor, with one candidate for each kind of block that is left. The
/// candidates are tried in the order in which their kinds first appear, or,
/// with `randomize`, in an order shuffled by `rng`. On success the board
/// holds the blocks; on failure it is as it was.
pub fn solve_step(
    board: &mut Board,
    all_blocks: &Vec<Block>,
    randomize: bool,
    rng: &mut Rng,
) -> (solved: bool)
    requires
        old(board).wf(),
    ensures
        final(board).wf(),
        final(board)@.size == old(board)@.size,
        solved == old(board)@.solvable(all_blocks@),
        solved ==> old(board)@.completes(all_blocks@, final(board)@),
        solved == (old(board)@.search(all_blocks@, randomize, old(rng)@).0 is Some),
        solved ==> final(board)@ == old(board)@.search(
            all_blocks@,
            randomize,
            old(rng)@,
        ).0.unwrap(),
        final(rng)@ == old(board)@.search(all_blocks@, randomize, old(rng)@).1,
        solved ==> final(board).occupied_count() == old(board).occupied_count() + total_area(
            all_blocks@,
        ),
        solved ==> (final(board)@.full() <==> old(board).occupied_count() + total_area(
            all_blocks@,
        ) == old(board)@.size * old(board)@.size),
        old(board).occupied_count() + total_area(all_blocks@) > old(board)@.size * old(
            board,
        )@.size ==> !solved,
        forall|extra: Seq<Block>| #[trigger]
            old(board)@.tiles(all_blocks@, extra) ==> solved,
        !solved ==> final(board)@ == old(board)@ && final(board).grid() == old(board).grid(),
        !randomize ==> *final(rng) == *old(rng),
    decreases all_blocks@.len(), 0nat,
{
    let ghost start = *board;
    let ghost rem = all_blocks@;
    if all_blocks.len() == 0 {
        proof {
            assert(start@.completes(rem, start@));
            start.lemma_full_count();
        }
        return true;
    }
    let (x, y) = match board.first_free_cell() {
        Some(cell) => cell,
        None => {
            proof {
                start@.lemma_full_unsolvable(rem);
                start.lemma_full_count();
                assert forall|extra: Seq<Block>| !#[trigger] start@.tiles(rem, extra) by {
                    if start@.tiles(rem, extra) {
                        start@.lemma_tiling_found(rem, extra);
                    }
                }
                assert forall|fx: nat, fy: nat| !start@.is_first_free(fx, fy) by {
                    if start@.is_first_free(fx, fy) {
                        assert(start@.covered(fx as int, fy as int));
                    }
                }
            }
            return false;
        },
    };
    proof {
        assert(start@.is_first_free(x as nat, y as nat));
        start@.lemma_first_free_unique(
            start@.first_free().0,
            start@.first_free().1,
            x as nat,
            y as nat,
        );
    }
    let mut candidates: Vec<usize> = distinct_kinds(all_blocks);
    if randomize {
        let ghost ordered = candidates@;
        shuffle(&mut candidates, rng);
        proof {
            assert forall|c: int| 0 <= c < candidates@.len() implies Layout::is_candidate(
                rem,
                #[trigger] candidates@[c] as int,
            ) by {
                assert(candidates@.contains(candidates@[c]));
                assert(ordered.contains(candidates@[c]));
            }
        }
    }
    let mut c: usize = 0;
    while c < candidates.len()
        invariant
            c <= candidates.len(),
            rem == all_blocks@,
            rem.len() > 0,
            start == *old(board),
            start.wf(),
            board.wf(),
            board@ == start@,
            board.grid() == start.grid(),
            start@.is_first_free(x as nat, y as nat),
            !randomize ==> *rng == *old(rng),
            start@.try_candidates(
                rem,
                candidates@,
                c as nat,
                x as nat,
                y as nat,
                randomize,
                rng@,
            ) == start@.search(rem, randomize, old(rng)@),
            forall|d: int|
                0 <= d < candidates@.len() ==> Layout::is_candidate(
                    rem,
                    #[trigger] candidates@[d] as int,
                ),
            forall|k: int| #[trigger]
                Layout::is_candidate(rem, k) ==> candidates@.contains(k as usize),
            forall|d: int, b: Block|
                0 <= d < c && (b == rem[candidates@[d] as int] || b == rem[candidates@[d]
                    as int].turned()) ==> !(start@.fits(b, x as nat, y as nat)
                    && #[trigger] start@.place(
                    b,
                    x as nat,
                    y as nat,
                ).solvable(rem.remove(#[trigger] candidates@[d] as int))),
        decreases candidates.len() - c,
    {
        let k: usize = candidates[c];
        assert(Layout::is_candidate(rem, candidates@[c as int] as int));
        let mut block: Block = all_blocks[k];
        let rest: Vec<Block> = without(all_blocks, k);
        proof {
            lemma_total_area_remove(rem, k as int);
            block.lemma_turned();
        }
        if add_block_at(board, block, &rest, x, y, randomize, rng) {
            proof {
                assert(start@.is_move(rem, k as int, block, x as nat, y as nat));
                assert(start@.completes(rem, board@));
                board.lemma_full_count();
            }
            return true;
        }
        block.rotate();
        if add_block_at(board, block, &rest, x, y, randomize, rng) {
            proof {
                assert(block == rem[k as int].turned());
                assert(start@.is_move(rem, k as int, block, x as nat, y as nat));
                assert(start@.completes(rem, board@));
                board.lemma_full_count();
            }
            return true;
        }
        proof {
            start.lemma_grid_follows_view(*board);
        }
        c += 1;
    }
    proof {
        assert forall|end: Layout| !start@.completes(rem, end) by {
            if start@.completes(rem, end) {
                let (k, b, mx, my) = choose|k: int, b: Block, mx: nat, my: nat|
                    0 <= k < rem.len() && #[trigger] start@.is_move(rem, k, b, mx, my)
                        && start@.place(b, mx, my).completes(rem.remove(k), end);
                start@.lemma_first_free_unique(mx, my, x as nat, y as nat);
                assert(candidates@.contains(k as usize));
                let d = choose|d: int| 0 <= d < candidates@.len() && candidates@[d] == k as usize;
                assert(start@.place(b, x as nat, y as nat).solvable(
                    rem.remove(candidates@[d] as int),
                ));
            }
        }
        start.lemma_grid_follows_view(*board);
        assert forall|extra: Seq<Block>| !#[trigger] start@.tiles(rem, extra) by {
            if start@.tiles(rem, extra) {
                start@.lemma_tiling_found(rem, extra);
            }
        }
    }
    false
}

/// Tries `block` at anchor (`x`, `y`): places it if it fits, searches on with
/// `blocks`, and takes it off again when that search fails.
pub fn add_block_at(
    board: &mut Board,
    block: Block,
    blocks: &Vec<Block>,
    x: usize,
    y: usize,
    randomize: bool,
    rng: &mut Rng,
) -> (solved: bool)
    requires
        old(board).wf(),
    ensures
        final(board).wf(),
        final(board)@.size == old(board)@.size,
        solved == (old(board)@.fits(block, x as nat, y as nat) && old(board)@.place(
            block,
            x as nat,
            y as nat,
        ).solvable(blocks@)),
        solved ==> old(board)@.place(block, x as nat, y as nat).completes(
            blocks@,
            final(board)@,
        ),
        solved == (old(board)@.try_block(
            block,
            blocks@,
            x as nat,
            y as nat,
            randomize,
            old(rng)@,
        ).0 is Some),
        solved ==> final(board)@ == old(board)@.try_block(
            block,
            blocks@,
            x as nat,
            y as nat,
            randomize,
            old(rng)@,
        ).0.unwrap(),
        final(rng)@ == old(board)@.try_block(
            block,
            blocks@,
            x as nat,
            y as nat,
            randomize,
            old(rng)@,
        ).1,
        solved ==> final(board).occupied_count() == old(board).occupied_count() + block.area()
            + total_area(blocks@),
        !solved ==> final(board)@ == old(board)@ && final(board).grid() == old(board).grid(),
        !randomize ==> *final(rng) == *old(rng),
    decreases blocks@.len(), 1nat,
{
    let ghost start = *board;
    proof {
        use_type_invariant(&block);
    }
    if board.add_block_at(block, x, y) {
        let ghost added = *board;
        if solve_step(board, blocks, randomize, rng) {
            return true;
        } else {
            board.remove_block_at(x, y);
            proof {
                start.lemma_add_then_remove(added, *board, block, x as nat, y as nat);
            }
        }
    }
    false
}

} // verus!
