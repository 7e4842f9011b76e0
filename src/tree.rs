use std::path::PathBuf;
use vstd::arithmetic::div_mod::{
    lemma_add_mod_noop,
    lemma_add_mod_noop_right,
    lemma_fundamental_div_mod,
    lemma_fundamental_div_mod_converse,
    lemma_mod_bound,
};
use vstd::prelude::*;

use crate::line::{LineType, TreeLine};

verus! {

/// A flattened tree: its lines in pre-order, the root first, and the index of
/// the selected line.
#[derive(Debug)]
pub struct Tree {
    pub lines: Box<[TreeLine]>,
    pub selection: usize,
}

/// Whether the line at index `i` can be selected.
pub open spec fn selectable(lines: Seq<TreeLine>, i: int) -> bool {
    !lines[i].is_pruning()
}

/// The index reached from `s` after `k` steps of `dy`, cyclically over `n`
/// lines.
pub open spec fn orbit(s: int, dy: int, n: int, k: int) -> int {
    (s + k * dy) % n
}

/// Whether the `k`-th step of `dy` from `s` reaches a selectable line.
pub open spec fn selectable_after(lines: Seq<TreeLine>, s: int, dy: int, k: int) -> bool {
    selectable(lines, orbit(s, dy, lines.len() as int, k))
}

/// Whether stepping by `dy` from `s` ever reaches a selectable line.
pub open spec fn can_move(lines: Seq<TreeLine>, s: int, dy: int) -> bool {
    exists|k: int| 1 <= k <= lines.len() && #[trigger] selectable_after(lines, s, dy, k)
}

/// The `k`-th step of `dy` from `s` is the first to reach a selectable line.
pub open spec fn first_landing(lines: Seq<TreeLine>, s: int, dy: int, k: int) -> bool {
    &&& 1 <= k
    &&& selectable_after(lines, s, dy, k)
    &&& forall|j: int| 1 <= j < k ==> !#[trigger] selectable_after(lines, s, dy, j)
}

/// Where a move of `dy` from `s` lands: the first selectable line that the
/// steps reach.
pub open spec fn move_target(lines: Seq<TreeLine>, s: int, dy: int) -> int {
    orbit(s, dy, lines.len() as int, choose|k: int| first_landing(lines, s, dy, k))
}

/// The selection after `k` moves of `dy` from `s`.
pub open spec fn moves(lines: Seq<TreeLine>, s: int, dy: int, k: nat) -> int
    decreases k,
{
    if k == 0 {
        s
    } else {
        move_target(lines, moves(lines, s, dy, (k - 1) as nat), dy)
    }
}

proof fn lemma_orbit_step(s: int, dy: int, n: int, k: int, step: int)
    requires
        n > 0,
        step == dy % n,
    ensures
        (orbit(s, dy, n, k) + step) % n == orbit(s, dy, n, k + 1),
{
    lemma_add_mod_noop(s + k * dy, dy, n);
    assert(s + k * dy + dy == s + (k + 1) * dy) by (nonlinear_arith);
    assert(step % n == step) by {
        lemma_add_mod_noop(0, dy, n);
    }
}

proof fn lemma_first_landing_unique(lines: Seq<TreeLine>, s: int, dy: int, k: int)
    requires
        first_landing(lines, s, dy, k),
    ensures
        move_target(lines, s, dy) == orbit(s, dy, lines.len() as int, k),
{
    let c = choose|c: int| first_landing(lines, s, dy, c);
    assert(first_landing(lines, s, dy, c));
    if c < k {
        assert(!selectable_after(lines, s, dy, c));
    }
    if k < c {
        assert(!selectable_after(lines, s, dy, k));
    }
}

/// The score that counts for the line at `i`: the matcher's positive score
/// for its name, 0 for a line without a name, without a match, or with a
/// score that is not positive.
pub open spec fn match_score(lines: Seq<TreeLine>, scores: Seq<Option<i32>>, i: int) -> int {
    match scores[i] {
        Some(sc) => if !lines[i].is_pruning() && sc > 0 {
            sc as int
        } else {
            0
        },
        None => 0,
    }
}

/// Whether the line at `i` has a name that the matcher accepted.
pub open spec fn is_match(lines: Seq<TreeLine>, matched: Seq<bool>, i: int) -> bool {
    !lines[i].is_pruning() && matched[i]
}

/// The index that the `di`-th step of a forward search from `s` looks at.
pub open spec fn next_index(s: int, n: int, di: int) -> int {
    (s + di + 1) % n
}

proof fn lemma_first_landing_exists(lines: Seq<TreeLine>, s: int, dy: int, k: int)
    requires
        1 <= k,
        selectable_after(lines, s, dy, k),
    ensures
        exists|m: int| first_landing(lines, s, dy, m),
    decreases k,
{
    if exists|j: int| 1 <= j < k && #[trigger] selectable_after(lines, s, dy, j) {
        let j = choose|j: int| 1 <= j < k && #[trigger] selectable_after(lines, s, dy, j);
        lemma_first_landing_exists(lines, s, dy, j);
    } else {
        assert(first_landing(lines, s, dy, k));
    }
}

/// A move of one line down or up, in a tree that holds at least one line
/// that is not a pruning line, can be made and lands on such a line.
pub proof fn lemma_unit_move_lands_on_selectable(lines: Seq<TreeLine>, s: int, dy: int)
    requires
        0 <= s < lines.len(),
        dy == 1 || dy == -1,
        exists|t: int| 0 <= t < lines.len() && #[trigger] selectable(lines, t),
    ensures
        can_move(lines, s, dy),
        0 <= move_target(lines, s, dy) < lines.len(),
        selectable(lines, move_target(lines, s, dy)),
{
    let n = lines.len() as int;
    let t = choose|t: int| 0 <= t < n && #[trigger] selectable(lines, t);
    let k = if dy == 1 {
        if t > s { t - s } else { n + t - s }
    } else {
        if t < s { s - t } else { n + s - t }
    };
    let q: int = if dy == 1 {
        if t > s { 0 } else { 1 }
    } else {
        if t < s { 0 } else { -1 }
    };
    assert(k * dy == if dy == 1 { k } else { -k }) by (nonlinear_arith)
        requires
            dy == 1 || dy == -1,
    ;
    assert(q * n == if q == 0 { 0 } else if q == 1 { n } else { -n }) by (nonlinear_arith)
        requires
            q == 0 || q == 1 || q == -1,
    ;
    lemma_fundamental_div_mod_converse(s + k * dy, n, q, t);
    assert(selectable_after(lines, s, dy, k));
    lemma_first_landing_exists(lines, s, dy, k);
    let c = choose|c: int| first_landing(lines, s, dy, c);
    lemma_mod_bound(s + c * dy, n);
}

/// In a tree without pruning lines, `k` moves of one line down from line `s`
/// select line `(s + k) mod n`.
pub proof fn lemma_moves_down_without_pruning(lines: Seq<TreeLine>, s: int, k: nat)
    requires
        0 <= s < lines.len(),
        forall|i: int| 0 <= i < lines.len() ==> #[trigger] selectable(lines, i),
    ensures
        moves(lines, s, 1, k) == (s + k) % (lines.len() as int),
    decreases k,
{
    let n = lines.len() as int;
    if k == 0 {
        lemma_fundamental_div_mod_converse(s, n, 0, s);
    } else {
        lemma_moves_down_without_pruning(lines, s, (k - 1) as nat);
        let p = moves(lines, s, 1, (k - 1) as nat);
        lemma_mod_bound(p + 1, n);
        assert(selectable_after(lines, p, 1, 1));
        lemma_first_landing_unique(lines, p, 1, 1);
        lemma_add_mod_noop_right(1, s + k - 1, n);
    }
}

impl Tree {
    /// Each line has one connector flag per depth above it.
    pub open spec fn lines_wf(&self) -> bool {
        forall|i: int| 0 <= i < self.lines@.len() ==> (#[trigger] self.lines@[i]).wf()
    }

    /// There is a root, the selection designates a line, and each line has
    /// one connector flag per depth above it.
    pub open spec fn wf(&self) -> bool {
        &&& self.lines@.len() > 0
        &&& self.selection < self.lines@.len()
        &&& self.lines_wf()
    }

    /// Whether a vertical connector is drawn at `depth` on the line at
    /// `line_index`: false for an index past the end or a depth not above the
    /// line.
    pub fn has_branch(&self, line_index: usize, depth: usize) -> (r: bool)
        requires
            self.lines_wf(),
        ensures
            r == (line_index < self.lines@.len() && depth < self.lines@[line_index as int].depth
                && self.lines@[line_index as int].left_branchs@[depth as int]),
    {
        if line_index >= self.lines.len() {
            return false;
        }
        let line = &self.lines[line_index];
        assert(line.wf());
        if depth >= line.depth as usize {
            return false;
        }
        line.left_branchs[depth]
    }

    /// Selects the first line whose key is `key` and returns true; returns
    /// false and keeps the selection when no line has that key.
    pub fn try_select(&mut self, key: &str) -> (r: bool)
        ensures
            final(self).lines == old(self).lines,
            old(self).wf() ==> final(self).wf(),
            r == exists|i: int|
                0 <= i < old(self).lines@.len() && #[trigger] old(self).lines@[i].key@ == key@,
            r ==> {
                &&& final(self).selection < old(self).lines@.len()
                &&& old(self).lines@[final(self).selection as int].key@ == key@
                &&& forall|j: int|
                    0 <= j < final(self).selection ==> #[trigger] old(self).lines@[j].key@ != key@
            },
            !r ==> final(self).selection == old(self).selection,
    {
        let wanted = key.to_owned();
        let n = self.lines.len();
        for i in 0..n
            invariant
                n == self.lines@.len(),
                self.lines == old(self).lines,
                self.selection == old(self).selection,
                wanted@ == key@,
                forall|j: int| 0 <= j < i ==> #[trigger] self.lines@[j].key@ != key@,
        {
            if wanted == self.lines[i].key {
                self.selection = i;
                return true;
            }
        }
        false
    }

    /// Moves the selection by `dy` lines, cyclically, again and again until it
    /// reaches a line that is not a pruning one. A negative `dy` moves up.
    /// The steps must reach such a line: in a tree made only of pruning
    /// lines, the search would never end.
    pub fn move_selection(&mut self, dy: i32)
        requires
            old(self).lines@.len() > 0,
            old(self).selection < old(self).lines@.len(),
            can_move(old(self).lines@, old(self).selection as int, dy as int),
        ensures
            final(self).lines == old(self).lines,
            old(self).wf() ==> final(self).wf(),
            final(self).selection == move_target(
                old(self).lines@,
                old(self).selection as int,
                dy as int,
            ),
            final(self).selection < final(self).lines@.len(),
            !final(self).lines@[final(self).selection as int].is_pruning(),
    {
        let l = self.lines.len();
        let ghost n = l as int;
        let ghost s = self.selection as int;
        let step: usize = if dy >= 0 {
            (dy as usize) % l
        } else {
            let m = ((-(dy as i64)) as usize) % l;
            proof {
                let a = -(dy as int);
                let q = a / n;
                let mi = m as int;
                lemma_fundamental_div_mod(a, n);
                assert(a == n * q + mi);
                if m == 0 {
                    assert(dy as int == (-q) * n + 0) by (nonlinear_arith)
                        requires
                            dy as int == -a,
                            a == n * q + mi,
                            mi == 0,
                    ;
                    lemma_fundamental_div_mod_converse(dy as int, n, -q, 0);
                } else {
                    assert(dy as int == (-q - 1) * n + (n - mi)) by (nonlinear_arith)
                        requires
                            dy as int == -a,
                            a == n * q + mi,
                    ;
                    lemma_fundamental_div_mod_converse(dy as int, n, -q - 1, n - mi);
                }
            }
            if m == 0 {
                0
            } else {
                l - m
            }
        };
        assert(step == (dy as int) % n);
        let ghost k0 = choose|k: int| 1 <= k <= n && selectable_after(self.lines@, s, dy as int, k);
        let ghost mut count: int = 0;
        assert(s % n == s) by {
            lemma_fundamental_div_mod_converse(s, n, 0, s);
        }
        let mut found = false;
        while !found
            invariant
                self.lines == old(self).lines,
                l == self.lines@.len(),
                n == l,
                step < l,
                step == (dy as int) % n,
                s == old(self).selection,
                1 <= k0 <= n,
                selectable_after(self.lines@, s, dy as int, k0),
                0 <= count <= k0,
                self.selection < l,
                self.selection == orbit(s, dy as int, n, count),
                forall|j: int| 1 <= j < count ==> !#[trigger] selectable_after(self.lines@, s, dy as int, j),
                found ==> 1 <= count && selectable_after(self.lines@, s, dy as int, count),
                !found ==> count == 0 || !selectable_after(self.lines@, s, dy as int, count),
            decreases k0 - count,
        {
            proof {
                lemma_orbit_step(s, dy as int, n, count, step as int);
            }
            self.selection = if self.selection >= l - step {
                self.selection - (l - step)
            } else {
                self.selection + step
            };
            proof {
                let t = self.selection as int;
                let before = orbit(s, dy as int, n, count);
                let q = if before + step >= n { 1int } else { 0int };
                lemma_fundamental_div_mod_converse(before + step, n, q, t);
                count = count + 1;
            }
            found = match &self.lines[self.selection].content {
                LineType::Pruning { .. } => false,
                _ => true,
            };
        }
        proof {
            lemma_first_landing_unique(self.lines@, s, dy as int, count);
        }
    }

    /// Selects the line with the highest positive score, the earliest of
    /// those that share it, and returns true; returns false and keeps the
    /// selection when no line has a positive score. `scores[i]` is what the
    /// matcher gave for the name of line `i`; lines without a name are skipped.
    pub fn try_select_best_match(&mut self, scores: &Vec<Option<i32>>) -> (r: bool)
        requires
            scores@.len() == old(self).lines@.len(),
        ensures
            final(self).lines == old(self).lines,
            old(self).wf() ==> final(self).wf(),
            r == exists|i: int|
                0 <= i < scores@.len() && #[trigger] match_score(old(self).lines@, scores@, i) > 0,
            r ==> {
                let b = final(self).selection as int;
                &&& b < scores@.len()
                &&& match_score(old(self).lines@, scores@, b) > 0
                &&& forall|j: int|
                    0 <= j < scores@.len() ==> #[trigger] match_score(old(self).lines@, scores@, j)
                        <= match_score(old(self).lines@, scores@, b)
                &&& forall|j: int|
                    0 <= j < b ==> #[trigger] match_score(old(self).lines@, scores@, j)
                        < match_score(old(self).lines@, scores@, b)
            },
            !r ==> final(self).selection == old(self).selection,
    {
        let ghost lines = self.lines@;
        let n = self.lines.len();
        let mut best_score: i32 = 0;
        for idx in 0..n
            invariant
                n == lines.len(),
                scores@.len() == n,
                self.lines == old(self).lines,
                lines == self.lines@,
                best_score >= 0,
                forall|j: int| 0 <= j < idx ==> #[trigger] match_score(lines, scores@, j) <= best_score,
                best_score == 0 ==> self.selection == old(self).selection,
                best_score > 0 ==> {
                    &&& self.selection < idx
                    &&& match_score(lines, scores@, self.selection as int) == best_score
                    &&& forall|j: int|
                        0 <= j < self.selection ==> #[trigger] match_score(lines, scores@, j)
                            < best_score
                },
        {
            if let Some(_) = self.lines[idx].name() {
                if let Some(score) = scores[idx] {
                    if score > best_score {
                        best_score = score;
                        self.selection = idx;
                    }
                }
            }
        }
        proof {
            if best_score > 0 {
                assert(match_score(lines, scores@, self.selection as int) > 0);
            }
        }
        best_score > 0
    }

    /// Searching forward from the line after the selection, cyclically, and
    /// coming back to the selected line last, selects the first line with a
    /// name that the matcher accepted and returns true; returns false and
    /// keeps the selection when there is none. `matched[i]` tells whether the
    /// matcher accepted the name of line `i`.
    pub fn try_select_next_match(&mut self, matched: &Vec<bool>) -> (r: bool)
        requires
            old(self).selection < old(self).lines@.len(),
            matched@.len() == old(self).lines@.len(),
        ensures
            final(self).lines == old(self).lines,
            old(self).wf() ==> final(self).wf(),
            r == exists|di: int|
                0 <= di < matched@.len() && #[trigger] is_match(
                    old(self).lines@,
                    matched@,
                    next_index(old(self).selection as int, matched@.len() as int, di),
                ),
            r ==> exists|di: int|
                {
                    &&& 0 <= di < matched@.len()
                    &&& final(self).selection == next_index(
                        old(self).selection as int,
                        matched@.len() as int,
                        di,
                    )
                    &&& is_match(old(self).lines@, matched@, final(self).selection as int)
                    &&& forall|e: int|
                        0 <= e < di ==> !#[trigger] is_match(
                            old(self).lines@,
                            matched@,
                            next_index(old(self).selection as int, matched@.len() as int, e),
                        )
                },
            !r ==> final(self).selection == old(self).selection,
    {
        let ghost lines = self.lines@;
        let n = self.lines.len();
        let start = self.selection;
        let gap = n - start;
        for di in 0..n
            invariant
                n == lines.len(),
                matched@.len() == n,
                self.lines == old(self).lines,
                lines == self.lines@,
                start == self.selection,
                start == old(self).selection,
                start < n,
                gap == n - start,
                forall|e: int|
                    0 <= e < di ==> !#[trigger] is_match(
                        lines,
                        matched@,
                        next_index(start as int, n as int, e),
                    ),
        {
            let idx = if di + 1 >= gap {
                di + 1 - gap
            } else {
                start + di + 1
            };
            proof {
                lemma_fundamental_div_mod_converse(
                    start + di + 1,
                    n as int,
                    if di + 1 >= gap { 1 } else { 0 },
                    idx as int,
                );
            }
            if let Some(_) = self.lines[idx].name() {
                if matched[idx] {
                    self.selection = idx;
                    assert(is_match(lines, matched@, next_index(start as int, n as int, di as int)));
                    return true;
                }
            }
        }
        false
    }

    /// The key of the selected line.
    pub fn key(&self) -> (r: String)
        requires
            self.selection < self.lines@.len(),
        ensures
            r@ == self.lines@[self.selection as int].key@,
    {
        self.lines[self.selection].key.clone()
    }

    pub fn selected_line(&self) -> (r: &TreeLine)
        requires
            self.selection < self.lines@.len(),
        ensures
            *r == self.lines@[self.selection as int],
    {
        &self.lines[self.selection]
    }

    /// The path of the root line.
    pub fn root(&self) -> (r: &PathBuf)
        requires
            self.lines@.len() > 0,
        ensures
            *r == self.lines@[0].path,
    {
        &self.lines[0].path
    }
}

} // verus!
