//! The game board: 16 holes, each holding an independent count of red and of
//! blue seeds, and one attic of captured seeds per player.
//!
//! Hole ownership goes by index parity: even indices belong to player 0, odd
//! indices to player 1, whatever color is stored there. A move sows one
//! hole's seeds of one color forward and then captures backward from the
//! last-served hole while the combined count there is exactly 2 or 3.

use vstd::prelude::*;

use crate::SEED_ROOM;

verus! {

broadcast use vstd::array::group_array_axioms;

/// The tag choosing which of the two seed tracks a move sows from.
#[derive(Clone, Copy, Debug, PartialEq, Eq, Structural)]
pub enum Color {
    Red,
    Blue,
}

/// The game state: per-hole red and blue seed counts and the two attics.
/// A board is a small value, copied freely; the search works on copies.
#[derive(Clone, Copy, Debug)]
pub struct Board {
    pub red_holes: [i32; 16],
    pub blue_holes: [i32; 16],
    pub players_attics: [i32; 2],
}

/// Sum of the first `n` entries of a sequence.
pub open spec fn sum_range(s: Seq<int>, n: int) -> int
    decreases n,
{
    if n <= 0 {
        0
    } else {
        sum_range(s, n - 1) + s[n - 1]
    }
}

/// An integer clipped from below at zero.
pub open spec fn to_nat(n: int) -> nat {
    if n <= 0 {
        0
    } else {
        n as nat
    }
}

/// The hole that the `t`-th sown seed lands in (`t` counted from 1).
/// Red steps one hole forward per seed; blue serves the next hole once and
/// then steps two holes forward per seed.
pub open spec fn sow_target(hole: int, t: int, c: Color) -> int {
    match c {
        Color::Red => (hole + t) % 16,
        Color::Blue => (hole + 1 + 2 * (t - 1)) % 16,
    }
}

/// The seed counts after the first `t` deposits of a sowing pass from
/// `hole`, starting from counts `a` in which the source hole is already
/// emptied.
pub open spec fn sown(a: Seq<int>, hole: int, t: nat, c: Color) -> Seq<int>
    decreases t,
{
    if t == 0 {
        a
    } else {
        let p = sown(a, hole, (t - 1) as nat, c);
        let tg = sow_target(hole, t as int, c);
        p.update(tg, p[tg] + 1)
    }
}

/// The hole that receives the last seed when `n` seeds are sown from `hole`;
/// with nothing to sow, the hole right after the source.
pub open spec fn last_hole_of(hole: int, n: int, c: Color) -> int {
    if n <= 0 {
        (hole + 1) % 16
    } else {
        sow_target(hole, n, c)
    }
}

/// Combined seed count at position `pos`, taken modulo 16.
pub open spec fn comb(r: Seq<int>, b: Seq<int>, pos: int) -> int {
    r[pos % 16] + b[pos % 16]
}

/// How many holes the backward capture walk starting at `pos` empties: the
/// length of the run of holes whose combined count is exactly 2 or 3,
/// within a budget of `fuel` steps.
pub open spec fn run_from(r: Seq<int>, b: Seq<int>, pos: int, fuel: nat) -> nat
    decreases fuel,
{
    if fuel == 0 {
        0
    } else if comb(r, b, pos) == 2 || comb(r, b, pos) == 3 {
        (1 + run_from(r, b, pos - 1, (fuel - 1) as nat)) as nat
    } else {
        0
    }
}

/// The counts once the first `m` holes of the capture walk from `pos` have
/// been emptied.
pub open spec fn emptied(a: Seq<int>, pos: int, m: nat) -> Seq<int> {
    Seq::new(
        a.len(),
        |i: int|
            if (pos - i) % 16 < m {
                0
            } else {
                a[i]
            },
    )
}

/// Seeds collected by the first `m` steps of the capture walk from `pos`.
pub open spec fn picked(r: Seq<int>, b: Seq<int>, pos: int, m: nat) -> int
    decreases m,
{
    if m == 0 {
        0
    } else {
        picked(r, b, pos, (m - 1) as nat) + comb(r, b, pos - (m - 1))
    }
}

impl Color {
    pub fn from_integer(id: usize) -> (c: Color)
        ensures
            c == (if id == 1 { Color::Blue } else { Color::Red }),
    {
        match id {
            0 => Color::Red,
            1 => Color::Blue,
            _ => Color::Red,
        }
    }
}

impl Board {
    /// The red seed counts as mathematical integers.
    pub open spec fn reds(self) -> Seq<int> {
        Seq::new(16, |i: int| self.red_holes@[i] as int)
    }

    /// The blue seed counts as mathematical integers.
    pub open spec fn blues(self) -> Seq<int> {
        Seq::new(16, |i: int| self.blue_holes@[i] as int)
    }

    /// One player's attic as a mathematical integer.
    pub open spec fn attic(self, player: int) -> int {
        self.players_attics@[player] as int
    }

    /// Seeds still on the board (both colors, all holes).
    pub open spec fn board_seeds(self) -> int {
        sum_range(self.reds(), 16) + sum_range(self.blues(), 16)
    }

    /// Every seed in the game: holes plus both attics.
    pub open spec fn total_all(self) -> int {
        self.board_seeds() + self.attic(0) + self.attic(1)
    }

    /// No negative counts anywhere.
    pub open spec fn nonneg(self) -> bool {
        &&& forall|i: int| 0 <= i < 16 ==> self.reds()[i] >= 0 && self.blues()[i] >= 0
        &&& self.attic(0) >= 0
        &&& self.attic(1) >= 0
    }

    /// A board this library's arithmetic is safe on: counts are non-negative
    /// and the grand total leaves ample `i32` headroom. Every board reachable
    /// from `new` by legal moves satisfies it, with total exactly 64.
    pub open spec fn ok(self) -> bool {
        self.nonneg() && self.total_all() <= SEED_ROOM as int
    }

    /// A move is legal when the hole exists, its parity matches the acting
    /// player, and the chosen color has at least one seed there.
    pub open spec fn move_possible(self, player: int, hole: int, c: Color) -> bool {
        &&& 0 <= hole < 16
        &&& hole % 2 == player
        &&& (match c {
            Color::Red => self.reds()[hole] > 0,
            Color::Blue => self.blues()[hole] > 0,
        })
    }

    /// A player is famined when every hole of their parity is empty of both
    /// colors: they have no legal move left.
    pub open spec fn famine(self, player: int) -> bool {
        forall|i: int| 0 <= i < 16 && i % 2 == player ==> self.reds()[i] + self.blues()[i] == 0
    }

    /// The game verdict, in strict priority order: a famine win for either
    /// player (when famine counts), then an attic majority for either
    /// player, then the low-seed endgame comparison; 2 is a draw and 3
    /// means no decision yet.
    pub open spec fn win_spec(self, with_famine: bool) -> int {
        if with_famine && self.famine(1) {
            0
        } else if with_famine && self.famine(0) {
            1
        } else if self.attic(0) >= 33 {
            0
        } else if self.attic(1) >= 33 {
            1
        } else if self.board_seeds() < 8 {
            if self.attic(0) == self.attic(1) {
                2
            } else if self.attic(0) > self.attic(1) {
                0
            } else {
                1
            }
        } else {
            3
        }
    }

    /// The broader terminal test that stops search recursion.
    pub open spec fn final_spec(self) -> bool {
        ||| self.board_seeds() < 8
        ||| self.attic(0) >= 33
        ||| self.attic(1) >= 33
        ||| self.famine(0)
        ||| self.famine(1)
    }

    /// Seeds the chosen color holds at the source hole.
    pub open spec fn sow_count(self, hole: int, c: Color) -> int {
        match c {
            Color::Red => self.reds()[hole],
            Color::Blue => self.blues()[hole],
        }
    }

    /// The red counts once the sowing step of a move is done.
    pub open spec fn after_sow_reds(self, hole: int, c: Color) -> Seq<int> {
        match c {
            Color::Red => sown(
                self.reds().update(hole, 0),
                hole,
                to_nat(self.sow_count(hole, c)),
                Color::Red,
            ),
            Color::Blue => self.reds(),
        }
    }

    /// The blue counts once the sowing step of a move is done.
    pub open spec fn after_sow_blues(self, hole: int, c: Color) -> Seq<int> {
        match c {
            Color::Red => self.blues(),
            Color::Blue => sown(
                self.blues().update(hole, 0),
                hole,
                to_nat(self.sow_count(hole, c)),
                Color::Blue,
            ),
        }
    }

    /// Where the sowing step of a move ends.
    pub open spec fn sow_last(self, hole: int, c: Color) -> int {
        last_hole_of(hole, self.sow_count(hole, c), c)
    }

    /// How many holes the capture step of a move empties.
    pub open spec fn capture_len(self, hole: int, c: Color) -> nat {
        run_from(self.after_sow_reds(hole, c), self.after_sow_blues(hole, c), self.sow_last(hole, c), 16)
    }

    /// How many seeds the capture step of a move adds to the mover's attic.
    pub open spec fn capture_gain(self, hole: int, c: Color) -> int {
        picked(
            self.after_sow_reds(hole, c),
            self.after_sow_blues(hole, c),
            self.sow_last(hole, c),
            self.capture_len(hole, c),
        )
    }

    /// The red counts after the whole move: sowing, then capture.
    pub open spec fn reds_after_move(self, hole: int, c: Color) -> Seq<int> {
        Seq::new(
            16,
            |i: int|
                if (self.sow_last(hole, c) - i) % 16 < self.capture_len(hole, c) {
                    0
                } else {
                    self.after_sow_reds(hole, c)[i]
                },
        )
    }

    /// The blue counts after the whole move: sowing, then capture.
    pub open spec fn blues_after_move(self, hole: int, c: Color) -> Seq<int> {
        Seq::new(
            16,
            |i: int|
                if (self.sow_last(hole, c) - i) % 16 < self.capture_len(hole, c) {
                    0
                } else {
                    self.after_sow_blues(hole, c)[i]
                },
        )
    }

    pub fn new() -> (b: Board)
        ensures
            forall|i: int| 0 <= i < 16 ==> b.reds()[i] == 2 && b.blues()[i] == 2,
            b.attic(0) == 0 && b.attic(1) == 0,
            b.total_all() == 64,
            b.ok(),
    {
        let b = Board { red_holes: [2; 16], blue_holes: [2; 16], players_attics: [0; 2] };
        proof {
            lemma_sum_const(b.reds(), 16, 2);
            lemma_sum_const(b.blues(), 16, 2);
        }
        b
    }

    pub fn get_player_attic(&self, player: usize) -> (n: i32)
        requires
            player < 2,
        ensures
            n as int == self.attic(player as int),
    {
        self.players_attics[player]
    }

    /// The executable counterpart of `ok`, so that unverified callers can
    /// test a board before handing it to functions that require `ok`.
    pub fn is_ok(&self) -> (r: bool)
        ensures
            r == self.ok(),
    {
        if self.players_attics[0] < 0 || self.players_attics[1] < 0 {
            return false;
        }
        let mut total: i64 = self.players_attics[0] as i64 + self.players_attics[1] as i64;
        let mut i: usize = 0;
        while i < 16
            invariant
                i <= 16,
                self.attic(0) >= 0,
                self.attic(1) >= 0,
                forall|j: int| 0 <= j < i ==> self.reds()[j] >= 0 && self.blues()[j] >= 0,
                total as int == sum_range(self.reds(), i as int) + sum_range(
                    self.blues(),
                    i as int,
                ) + self.attic(0) + self.attic(1),
                0 <= total <= (i as i64 + 1) * 4294967296,
            decreases 16 - i,
        {
            if self.red_holes[i] < 0 || self.blue_holes[i] < 0 {
                proof {
                    assert(self.reds()[i as int] < 0 || self.blues()[i as int] < 0);
                }
                return false;
            }
            total = total + self.red_holes[i] as i64 + self.blue_holes[i] as i64;
            i += 1;
        }
        total <= SEED_ROOM as i64
    }

    pub fn is_this_move_possible(&self, player: usize, hole: usize, color: Color) -> (r: bool)
        ensures
            r == self.move_possible(player as int, hole as int, color),
    {
        if hole >= 16 {
            return false;
        }
        if hole % 2 == player {
            match color {
                Color::Red => self.red_holes[hole] > 0,
                Color::Blue => self.blue_holes[hole] > 0,
            }
        } else {
            false
        }
    }

    pub fn check_famine(&self, player: usize) -> (r: bool)
        requires
            player < 2,
        ensures
            r == self.famine(player as int),
    {
        let mut i = player;
        while i < 16
            invariant
                player < 2,
                player <= i,
                i % 2 == player,
                forall|j: int|
                    0 <= j < i && j % 2 == player ==> self.reds()[j] + self.blues()[j] == 0,
            decreases 17 - i,
        {
            let s: i64 = self.red_holes[i] as i64 + self.blue_holes[i] as i64;
            if s != 0 {
                assert(self.reds()[i as int] + self.blues()[i as int] != 0);
                return false;
            }
            i += 2;
        }
        true
    }

    fn check_has_more_than_half_seeds(&self, player: usize) -> (r: bool)
        requires
            player < 2,
        ensures
            r == (self.attic(player as int) >= 33),
    {
        self.players_attics[player] >= 33
    }

    fn check_less_eight_seeds(&self) -> (r: bool)
        ensures
            r == (self.board_seeds() < 8),
    {
        let mut nb_total_seed: i64 = 0;
        let mut i: usize = 0;
        while i < 16
            invariant
                i <= 16,
                nb_total_seed as int == sum_range(self.reds(), i as int) + sum_range(
                    self.blues(),
                    i as int,
                ),
                -(i as i64) * 4294967296 <= nb_total_seed <= (i as i64) * 4294967296,
            decreases 16 - i,
        {
            nb_total_seed = nb_total_seed + self.red_holes[i] as i64 + self.blue_holes[i] as i64;
            i += 1;
        }
        nb_total_seed < 8
    }

    pub fn check_win(&self, with_famine: bool) -> (w: usize)
        ensures
            w as int == self.win_spec(with_famine),
    {
        if self.check_famine(1) && with_famine {
            return 0;
        }
        if self.check_famine(0) && with_famine {
            return 1;
        }
        if self.check_has_more_than_half_seeds(0) {
            return 0;
        }
        if self.check_has_more_than_half_seeds(1) {
            return 1;
        }
        if self.check_less_eight_seeds() {
            if self.players_attics[0] == self.players_attics[1] {
                return 2;
            } else {
                return if self.players_attics[0] > self.players_attics[1] {
                    0
                } else {
                    1
                };
            }
        }
        3
    }

    pub fn is_final_position(&self) -> (r: bool)
        ensures
            r == self.final_spec(),
    {
        if self.check_less_eight_seeds() {
            return true;
        }
        if self.check_has_more_than_half_seeds(0) || self.check_has_more_than_half_seeds(1) {
            return true;
        }
        if self.check_famine(0) || self.check_famine(1) {
            return true;
        }
        false
    }

    /// Sows the red seeds of `hole` one per following hole (wrapping),
    /// never into the source hole itself, and returns the hole that got the
    /// last one. A pile of 16 or more red seeds could only go on by
    /// depositing into the source, which the sowing rule skips without
    /// consuming a seed or advancing — such a sow never finishes, so those
    /// counts are excluded here.
    pub fn distribute_red_seeds(&mut self, hole: usize) -> (last: usize)
        requires
            hole < 16,
            old(self).reds()[hole as int] <= 15,
            forall|i: int| 0 <= i < 16 ==> old(self).reds()[i] < i32::MAX as int,
        ensures
            final(self).blue_holes == old(self).blue_holes,
            final(self).players_attics == old(self).players_attics,
            final(self).reds() == old(self).after_sow_reds(hole as int, Color::Red),
            last as int == old(self).sow_last(hole as int, Color::Red),
            last < 16,
            old(self).reds()[hole as int] >= 0 ==> sum_range(final(self).reds(), 16) == sum_range(
                old(self).reds(),
                16,
            ),
            (forall|i: int| 0 <= i < 16 ==> old(self).reds()[i] >= 0) ==> (forall|i: int|
                0 <= i < 16 ==> final(self).reds()[i] >= 0),
    {
        let ghost a0 = self.reds().update(hole as int, 0);
        let ghost n = self.reds()[hole as int];
        let mut nb_seeds = self.red_holes[hole];
        self.red_holes[hole] = 0;
        proof {
            assert(self.reds() =~= a0);
        }

        let mut current_hole = (hole + 1) % 16;

        if nb_seeds > 0 {
            proof {
                assert(self.reds()[current_hole as int] == a0[current_hole as int]);
            }
            let v = self.red_holes[current_hole];
            self.red_holes[current_hole] = v + 1;
            nb_seeds = nb_seeds - 1;
            proof {
                assert(sown(a0, hole as int, 0, Color::Red) == a0);
                assert(self.reds() =~= sown(a0, hole as int, 1, Color::Red));
            }
        }

        while nb_seeds > 0
            invariant
                hole < 16,
                current_hole < 16,
                a0 == old(self).reds().update(hole as int, 0),
                n == old(self).reds()[hole as int],
                n <= 15,
                forall|i: int| 0 <= i < 16 ==> a0[i] < i32::MAX as int,
                self.blue_holes == old(self).blue_holes,
                self.players_attics == old(self).players_attics,
                n >= 1 ==> 0 <= nb_seeds as int <= n - 1 && current_hole as int == sow_target(
                    hole as int,
                    n - nb_seeds as int,
                    Color::Red,
                ) && self.reds() == sown(a0, hole as int, (n - nb_seeds as int) as nat, Color::Red),
                n <= 0 ==> nb_seeds as int == n && self.reds() == a0 && current_hole as int == (
                hole as int + 1) % 16,
            decreases nb_seeds,
        {
            proof {
                let t = n - nb_seeds as int;
                assert(1 <= t <= 15);
                assert(current_hole != hole) by {
                    if current_hole as int == hole as int {
                        assert((hole as int + t) % 16 == hole as int);
                    }
                }
                lemma_sown_red_char(a0, hole as int, t as nat);
                lemma_sown_red_char(a0, hole as int, (t + 1) as nat);
                lemma_sown_len(a0, hole as int, t as nat, Color::Red);
                lemma_mod_shift(hole as int + t, 1);
                lemma_mod_shift(hole as int + t + 1, -(hole as int) - 1);
            }
            if current_hole != hole {
                current_hole = (current_hole + 1) % 16;
                proof {
                    let t = n - nb_seeds as int;
                    assert(current_hole as int == (hole as int + t + 1) % 16);
                    assert((current_hole as int - hole as int - 1) % 16 == t % 16);
                    assert(self.reds()[current_hole as int] == sown(
                        a0,
                        hole as int,
                        t as nat,
                        Color::Red,
                    )[current_hole as int]);
                }
                let v = self.red_holes[current_hole];
                self.red_holes[current_hole] = v + 1;
                nb_seeds = nb_seeds - 1;
                proof {
                    assert(self.reds() =~= sown(
                        a0,
                        hole as int,
                        (n - nb_seeds as int) as nat,
                        Color::Red,
                    ));
                }
            }
        }

        proof {
            lemma_sown_sum(a0, hole as int, to_nat(n), Color::Red);
            lemma_sum_update(old(self).reds(), 16, hole as int, 0);
            if forall|i: int| 0 <= i < 16 ==> old(self).reds()[i] >= 0 {
                lemma_sown_nonneg(a0, hole as int, to_nat(n), Color::Red);
            }
        }
        current_hole
    }

    /// Sows the blue seeds of `hole`: the next hole gets the first seed, and
    /// each further seed lands two holes onward (wrapping), never back in the
    /// source hole. Returns the hole that got the last seed.
    pub fn distribute_blue_seeds(&mut self, hole: usize) -> (last: usize)
        requires
            hole < 16,
            forall|i: int| 0 <= i < 16 ==> old(self).blues()[i] >= 0,
            sum_range(old(self).blues(), 16) <= i32::MAX as int,
        ensures
            final(self).red_holes == old(self).red_holes,
            final(self).players_attics == old(self).players_attics,
            final(self).blues() == old(self).after_sow_blues(hole as int, Color::Blue),
            last as int == old(self).sow_last(hole as int, Color::Blue),
            last < 16,
            sum_range(final(self).blues(), 16) == sum_range(old(self).blues(), 16),
            forall|i: int| 0 <= i < 16 ==> final(self).blues()[i] >= 0,
    {
        let ghost b0 = self.blues().update(hole as int, 0);
        let ghost n = self.blues()[hole as int];
        let mut nb_seeds = self.blue_holes[hole];
        self.blue_holes[hole] = 0;
        proof {
            assert(self.blues() =~= b0);
            lemma_sum_update(old(self).blues(), 16, hole as int, 0);
            lemma_sum_elem(old(self).blues(), 16, hole as int);
        }

        let mut current_hole = (hole + 1) % 16;

        if nb_seeds > 0 {
            proof {
                lemma_sown_sum(b0, hole as int, 0, Color::Blue);
                lemma_sum_elem(b0, 16, current_hole as int);
            }
            let v = self.blue_holes[current_hole];
            self.blue_holes[current_hole] = v + 1;
            nb_seeds = nb_seeds - 1;
            proof {
                assert(self.blues() =~= sown(b0, hole as int, 1, Color::Blue));
            }
        }

        while nb_seeds > 0
            invariant
                hole < 16,
                current_hole < 16,
                b0 == old(self).blues().update(hole as int, 0),
                n == old(self).blues()[hole as int],
                n >= 0,
                forall|i: int| 0 <= i < 16 ==> b0[i] >= 0,
                sum_range(b0, 16) == sum_range(old(self).blues(), 16) - n,
                sum_range(old(self).blues(), 16) <= i32::MAX as int,
                self.red_holes == old(self).red_holes,
                self.players_attics == old(self).players_attics,
                current_hole % 2 != hole % 2,
                n >= 1 ==> 0 <= nb_seeds as int <= n - 1 && current_hole as int == sow_target(
                    hole as int,
                    n - nb_seeds as int,
                    Color::Blue,
                ) && self.blues() == sown(
                    b0,
                    hole as int,
                    (n - nb_seeds as int) as nat,
                    Color::Blue,
                ),
                n == 0 ==> nb_seeds as int == 0 && self.blues() == b0 && current_hole as int == (
                hole as int + 1) % 16,
            decreases nb_seeds,
        {
            proof {
                let t = n - nb_seeds as int;
                assert(1 <= t <= n - 1);
                lemma_sown_len(b0, hole as int, t as nat, Color::Blue);
                lemma_sown_nonneg(b0, hole as int, t as nat, Color::Blue);
                lemma_sown_sum(b0, hole as int, t as nat, Color::Blue);
                lemma_mod_shift(hole as int + 1 + 2 * (t - 1), 2);
            }
            if current_hole != hole {
                current_hole = (current_hole + 2) % 16;
                proof {
                    let t = n - nb_seeds as int;
                    lemma_sum_elem(
                        sown(b0, hole as int, t as nat, Color::Blue),
                        16,
                        current_hole as int,
                    );
                }
                let v = self.blue_holes[current_hole];
                self.blue_holes[current_hole] = v + 1;
                nb_seeds = nb_seeds - 1;
                proof {
                    assert(self.blues() =~= sown(
                        b0,
                        hole as int,
                        (n - nb_seeds as int) as nat,
                        Color::Blue,
                    ));
                }
            }
        }

        proof {
            lemma_sown_sum(b0, hole as int, to_nat(n), Color::Blue);
            lemma_sown_nonneg(b0, hole as int, to_nat(n), Color::Blue);
        }
        current_hole
    }

    /// The capture walk: starting at `last_hole` and moving backward, empties
    /// every hole whose combined count is exactly 2 or 3 and credits the
    /// removed seeds to `player`'s attic. Returns the amount captured.
    #[verifier::rlimit(100)]
    pub fn pick_seed(&mut self, last_hole: usize, player: usize) -> (n: i32)
        requires
            last_hole < 16,
            player < 2,
            old(self).ok(),
        ensures
            ({
                let k = run_from(old(self).reds(), old(self).blues(), last_hole as int, 16);
                let gain = picked(old(self).reds(), old(self).blues(), last_hole as int, k);
                &&& forall|i: int|
                    0 <= i < 16 ==> final(self).reds()[i] == (if (last_hole as int - i) % 16 < k {
                        0int
                    } else {
                        old(self).reds()[i]
                    })
                &&& forall|i: int|
                    0 <= i < 16 ==> final(self).blues()[i] == (if (last_hole as int - i) % 16 < k {
                        0int
                    } else {
                        old(self).blues()[i]
                    })
                &&& n as int == gain
                &&& final(self).attic(player as int) == old(self).attic(player as int) + gain
                &&& final(self).attic(1 - player as int) == old(self).attic(1 - player as int)
                &&& final(self).total_all() == old(self).total_all()
                &&& final(self).ok()
            }),
    {
        let ghost r0 = self.reds();
        let ghost b0 = self.blues();
        let ghost pos0 = last_hole as int;
        let ghost k = run_from(r0, b0, pos0, 16);
        let ghost mut m: int = 0;
        proof {
            lemma_run_char(r0, b0, pos0, 16);
            lemma_ok_bounds(*self);
        }

        let mut current_hole = last_hole;
        let mut nb_blue_seed = self.blue_holes[current_hole];
        let mut nb_red_seed = self.red_holes[current_hole];

        let mut nb_total_seed: i32 = 0;
        while (nb_red_seed + nb_blue_seed) == 2 || nb_red_seed + nb_blue_seed == 3
            invariant
                last_hole < 16,
                current_hole < 16,
                r0 == old(self).reds(),
                b0 == old(self).blues(),
                pos0 == last_hole as int,
                k == run_from(r0, b0, pos0, 16),
                old(self).ok(),
                0 <= m <= k,
                k <= 16,
                current_hole as int == (pos0 - m) % 16,
                nb_red_seed as int == self.reds()[current_hole as int],
                nb_blue_seed as int == self.blues()[current_hole as int],
                self.reds() == emptied(r0, pos0, m as nat),
                self.blues() == emptied(b0, pos0, m as nat),
                nb_total_seed as int == picked(r0, b0, pos0, m as nat),
                nb_total_seed as int + sum_range(self.reds(), 16) + sum_range(self.blues(), 16)
                    == old(self).board_seeds(),
                0 <= nb_total_seed,
                0 <= nb_red_seed as int <= SEED_ROOM as int,
                0 <= nb_blue_seed as int <= SEED_ROOM as int,
                self.players_attics == old(self).players_attics,
            decreases k - m,
        {
            let ghost curi = current_hole as int;
            let ghost pre_r = self.reds();
            let ghost pre_b = self.blues();
            proof {
                lemma_run_char(r0, b0, pos0, 16);
                lemma_ok_bounds(*old(self));
                // The walk has not yet come back around: a 17th visit would
                // land on the hole emptied first, whose count is now zero.
                assert((pos0 - curi) % 16 == m % 16) by {
                    vstd::arithmetic::div_mod::lemma_sub_mod_noop_right(pos0, pos0 - m, 16);
                }
                assert(pre_r[curi] == emptied(r0, pos0, m as nat)[curi]);
                assert(pre_b[curi] == emptied(b0, pos0, m as nat)[curi]);
                if m == 16 {
                    assert(false);
                }
                assert(nb_red_seed as int == r0[(pos0 - m) % 16]);
                assert(comb(r0, b0, pos0 - m) == nb_red_seed + nb_blue_seed);
                if m == k {
                    assert(false);
                }
                lemma_sum_update(pre_r, 16, curi, 0);
                lemma_sum_update(pre_b, 16, curi, 0);
                assert forall|j: int| 0 <= j < 16 implies #[trigger] pre_r[j] >= 0 && pre_b[j]
                    >= 0 by {
                    assert(pre_r[j] == emptied(r0, pos0, m as nat)[j]);
                    assert(pre_b[j] == emptied(b0, pos0, m as nat)[j]);
                }
                lemma_sum_nonneg(pre_r, 16);
                lemma_sum_nonneg(pre_b, 16);
            }
            self.red_holes[current_hole] = 0;
            self.blue_holes[current_hole] = 0;

            proof {
                assert(self.reds() =~= pre_r.update(curi, 0));
                assert(self.blues() =~= pre_b.update(curi, 0));
                assert forall|i: int| 0 <= i < 16 implies #[trigger] self.reds()[i] == emptied(
                    r0,
                    pos0,
                    (m + 1) as nat,
                )[i] && self.blues()[i] == emptied(b0, pos0, (m + 1) as nat)[i] by {
                    if i != curi && (pos0 - i) % 16 == m {
                        lemma_mod16_inj(pos0, i, curi);
                    }
                    assert(pre_r[i] == emptied(r0, pos0, m as nat)[i]);
                    assert(pre_b[i] == emptied(b0, pos0, m as nat)[i]);
                    assert(emptied(r0, pos0, (m + 1) as nat)[i] == (if (pos0 - i) % 16 < m + 1 {
                        0int
                    } else {
                        r0[i]
                    }));
                    assert(emptied(b0, pos0, (m + 1) as nat)[i] == (if (pos0 - i) % 16 < m + 1 {
                        0int
                    } else {
                        b0[i]
                    }));
                }
                assert(self.reds() =~= emptied(r0, pos0, (m + 1) as nat));
                assert(self.blues() =~= emptied(b0, pos0, (m + 1) as nat));
            }

            nb_total_seed += nb_red_seed + nb_blue_seed;

            current_hole = if current_hole == 0 {
                15
            } else {
                current_hole - 1
            };
            nb_blue_seed = self.blue_holes[current_hole];
            nb_red_seed = self.red_holes[current_hole];
            proof {
                m = m + 1;
                assert(current_hole as int == (pos0 - m) % 16) by {
                    lemma_mod_shift(pos0 - (m - 1), -1);
                }
                assert(nb_red_seed as int == self.reds()[current_hole as int]);
                assert(self.reds()[current_hole as int] == emptied(
                    r0,
                    pos0,
                    m as nat,
                )[current_hole as int]);
                assert(self.blues()[current_hole as int] == emptied(
                    b0,
                    pos0,
                    m as nat,
                )[current_hole as int]);
                assert((pos0 - current_hole as int) % 16 == m % 16) by {
                    vstd::arithmetic::div_mod::lemma_sub_mod_noop_right(pos0, pos0 - m, 16);
                }
            }
        }

        proof {
            lemma_run_char(r0, b0, pos0, 16);
            assert((pos0 - current_hole as int) % 16 == m % 16) by {
                vstd::arithmetic::div_mod::lemma_sub_mod_noop_right(pos0, pos0 - m, 16);
            }
            if m < k {
                assert(self.reds()[current_hole as int] == emptied(
                    r0,
                    pos0,
                    m as nat,
                )[current_hole as int]);
                assert(self.blues()[current_hole as int] == emptied(
                    b0,
                    pos0,
                    m as nat,
                )[current_hole as int]);
                assert(nb_red_seed as int == r0[(pos0 - m) % 16]);
                assert(comb(r0, b0, pos0 - m) == nb_red_seed + nb_blue_seed);
                assert(false);
            }
            assert forall|i: int| 0 <= i < 16 implies #[trigger] self.reds()[i] == (if (pos0 - i)
                % 16 < k {
                0int
            } else {
                r0[i]
            }) && self.blues()[i] == (if (pos0 - i) % 16 < k {
                0int
            } else {
                b0[i]
            }) by {
                assert(self.reds()[i] == emptied(r0, pos0, m as nat)[i]);
                assert(self.blues()[i] == emptied(b0, pos0, m as nat)[i]);
            }
        }
        proof {
            lemma_ok_bounds(*old(self));
            lemma_sum_nonneg(self.reds(), 16);
            lemma_sum_nonneg(self.blues(), 16);
        }
        let a = self.players_attics[player];
        self.players_attics[player] = a + nb_total_seed;
        nb_total_seed
    }

    /// Plays one full move for `player`: sows `hole`'s seeds of `color`,
    /// then captures backward from the last-served hole into the attic.
    /// Callers must check `is_this_move_possible` first; a red pile of 16
    /// or more seeds cannot be sown (see `distribute_red_seeds`).
    pub fn play_move(&mut self, player: usize, hole: usize, color: Color)
        requires
            old(self).ok(),
            player < 2,
            old(self).move_possible(player as int, hole as int, color),
            color == Color::Red ==> old(self).reds()[hole as int] <= 15,
        ensures
            final(self).reds() == old(self).reds_after_move(hole as int, color),
            final(self).blues() == old(self).blues_after_move(hole as int, color),
            final(self).attic(player as int) == old(self).attic(player as int) + old(
                self,
            ).capture_gain(hole as int, color),
            final(self).attic(1 - player as int) == old(self).attic(1 - player as int),
            final(self).total_all() == old(self).total_all(),
            final(self).ok(),
    {
        proof {
            lemma_ok_bounds(*self);
        }
        let last_hole = match color {
            Color::Red => self.distribute_red_seeds(hole),
            Color::Blue => self.distribute_blue_seeds(hole),
        };
        proof {
            assert(self.reds() == old(self).after_sow_reds(hole as int, color) && self.blues()
                == old(self).after_sow_blues(hole as int, color)) by {
                match color {
                    Color::Red => {
                        assert(self.blues() =~= old(self).blues());
                    },
                    Color::Blue => {
                        assert(self.reds() =~= old(self).reds());
                    },
                }
            }
            assert(self.ok());
        }
        self.pick_seed(last_hole, player);
        proof {
            assert(self.reds() =~= old(self).reds_after_move(hole as int, color));
            assert(self.blues() =~= old(self).blues_after_move(hole as int, color));
        }
    }

    pub fn is_winning(&self, player: usize) -> (r: bool)
        requires
            player < 2,
        ensures
            r == (self.win_spec(true) == player as int),
    {
        self.check_win(true) == player
    }

    pub fn is_loosing(&self, player: usize) -> (r: bool)
        requires
            player < 2,
        ensures
            r == (self.win_spec(true) == 1 - player as int),
    {
        self.check_win(true) == (player + 1) % 2
    }

    pub fn is_draw(&self) -> (r: bool)
        ensures
            r == (self.win_spec(true) == 2),
    {
        self.check_win(true) == 2
    }
}

/// Sum of a constant sequence.
proof fn lemma_sum_const(s: Seq<int>, n: int, v: int)
    requires
        forall|i: int| 0 <= i < n ==> s[i] == v,
        n >= 0,
    ensures
        sum_range(s, n) == n * v,
    decreases n,
{
    if n == 0 {
        assert(n * v == 0) by (nonlinear_arith)
            requires n == 0;
    } else {
        lemma_sum_const(s, n - 1, v);
        assert(n * v == (n - 1) * v + v) by (nonlinear_arith);
    }
}

/// The sum of a prefix only looks at that prefix.
pub proof fn lemma_sum_congruence(s1: Seq<int>, s2: Seq<int>, n: int)
    requires
        forall|j: int| 0 <= j < n ==> s1[j] == s2[j],
    ensures
        sum_range(s1, n) == sum_range(s2, n),
    decreases n,
{
    if n > 0 {
        lemma_sum_congruence(s1, s2, n - 1);
    }
}

/// Updating one entry moves the sum by the difference at that entry.
pub proof fn lemma_sum_update(s: Seq<int>, n: int, i: int, v: int)
    requires
        0 <= i < n,
        n <= s.len(),
    ensures
        sum_range(s.update(i, v), n) == sum_range(s, n) - s[i] + v,
    decreases n,
{
    if i == n - 1 {
        lemma_sum_congruence(s.update(i, v), s, n - 1);
    } else {
        lemma_sum_update(s, n - 1, i, v);
    }
}

/// In a prefix of non-negative entries, each entry is at most the sum.
pub proof fn lemma_sum_elem(s: Seq<int>, n: int, i: int)
    requires
        forall|j: int| 0 <= j < n ==> s[j] >= 0,
        0 <= i < n,
    ensures
        s[i] <= sum_range(s, n),
        sum_range(s, n) >= 0,
    decreases n,
{
    if i == n - 1 {
        lemma_sum_nonneg(s, n - 1);
    } else {
        lemma_sum_elem(s, n - 1, i);
    }
}

/// A prefix of non-negative entries has a non-negative sum.
pub proof fn lemma_sum_nonneg(s: Seq<int>, n: int)
    requires
        forall|j: int| 0 <= j < n ==> s[j] >= 0,
    ensures
        sum_range(s, n) >= 0,
    decreases n,
{
    if n > 0 {
        lemma_sum_nonneg(s, n - 1);
    }
}

/// Reducing a position modulo 16 before an offset is added does not change
/// the hole finally reached.
pub proof fn lemma_mod_shift(x: int, k: int)
    ensures
        ((x % 16) + k) % 16 == (x + k) % 16,
{
    vstd::arithmetic::div_mod::lemma_add_mod_noop_right(x % 16, k, 16);
    vstd::arithmetic::div_mod::lemma_mod_twice(x, 16);
    vstd::arithmetic::div_mod::lemma_add_mod_noop(x, k, 16);
}

/// Two holes at the same walk distance from a position are the same hole.
pub proof fn lemma_mod16_inj(a: int, i: int, j: int)
    requires
        0 <= i < 16,
        0 <= j < 16,
        (a - i) % 16 == (a - j) % 16,
    ensures
        i == j,
{
    vstd::arithmetic::div_mod::lemma_mod_equivalence(a - i, a - j, 16);
}

/// On a well-formed board every single count stays within the headroom.
pub proof fn lemma_ok_bounds(b: Board)
    requires
        b.ok(),
    ensures
        forall|i: int|
            0 <= i < 16 ==> b.reds()[i] <= SEED_ROOM as int && b.blues()[i] <= SEED_ROOM as int,
        b.attic(0) <= SEED_ROOM as int,
        b.attic(1) <= SEED_ROOM as int,
        0 <= sum_range(b.reds(), 16) <= SEED_ROOM as int,
        0 <= sum_range(b.blues(), 16) <= SEED_ROOM as int,
        0 <= b.board_seeds() <= SEED_ROOM as int,
{
    lemma_sum_nonneg(b.reds(), 16);
    lemma_sum_nonneg(b.blues(), 16);
    assert forall|i: int| 0 <= i < 16 implies b.reds()[i] <= SEED_ROOM as int && b.blues()[i]
        <= SEED_ROOM as int by {
        lemma_sum_elem(b.reds(), 16, i);
        lemma_sum_elem(b.blues(), 16, i);
    }
}

/// Sowing does not change the length of the counts.
pub proof fn lemma_sown_len(a: Seq<int>, hole: int, t: nat, c: Color)
    requires
        a.len() == 16,
    ensures
        sown(a, hole, t, c).len() == 16,
    decreases t,
{
    if t > 0 {
        lemma_sown_len(a, hole, (t - 1) as nat, c);
    }
}

/// Each sown seed raises the total of the counts by one.
pub proof fn lemma_sown_sum(a: Seq<int>, hole: int, t: nat, c: Color)
    requires
        a.len() == 16,
    ensures
        sum_range(sown(a, hole, t, c), 16) == sum_range(a, 16) + t,
    decreases t,
{
    if t > 0 {
        lemma_sown_sum(a, hole, (t - 1) as nat, c);
        lemma_sown_len(a, hole, (t - 1) as nat, c);
        let p = sown(a, hole, (t - 1) as nat, c);
        let tg = sow_target(hole, t as int, c);
        lemma_sum_update(p, 16, tg, p[tg] + 1);
    }
}

/// Sowing keeps every count non-negative.
pub proof fn lemma_sown_nonneg(a: Seq<int>, hole: int, t: nat, c: Color)
    requires
        a.len() == 16,
        forall|i: int| 0 <= i < 16 ==> a[i] >= 0,
    ensures
        forall|i: int| 0 <= i < 16 ==> sown(a, hole, t, c)[i] >= 0,
    decreases t,
{
    if t > 0 {
        lemma_sown_nonneg(a, hole, (t - 1) as nat, c);
        lemma_sown_len(a, hole, (t - 1) as nat, c);
    }
}

/// With at most 16 red deposits, every hole is served at most once: hole
/// `i` gains one seed exactly when its forward distance from the source is
/// at most `t`.
pub proof fn lemma_sown_red_char(a: Seq<int>, hole: int, t: nat)
    requires
        a.len() == 16,
        0 <= hole < 16,
        t <= 16,
    ensures
        forall|i: int|
            0 <= i < 16 ==> sown(a, hole, t, Color::Red)[i] == a[i] + (if (i - hole - 1) % 16
                < t {
                1int
            } else {
                0int
            }),
    decreases t,
{
    if t > 0 {
        lemma_sown_red_char(a, hole, (t - 1) as nat);
        lemma_sown_len(a, hole, (t - 1) as nat, Color::Red);
        let tg = sow_target(hole, t as int, Color::Red);
        assert((tg - hole - 1) % 16 == t - 1);
        assert forall|i: int| 0 <= i < 16 implies #[trigger] sown(a, hole, t, Color::Red)[i] == a[i]
            + (if (i - hole - 1) % 16 < t {
            1int
        } else {
            0int
        }) by {
            if i != tg && (i - hole - 1) % 16 == t - 1 {
                assert(i % 16 == (hole + t) % 16);
                assert(i == tg);
            }
        }
    }
}

/// What the length of a capture run means: every hole in the run holds a
/// combined 2 or 3, and the first hole past a short run does not.
pub proof fn lemma_run_char(r: Seq<int>, b: Seq<int>, pos: int, fuel: nat)
    ensures
        run_from(r, b, pos, fuel) <= fuel,
        forall|j: int|
            0 <= j < run_from(r, b, pos, fuel) ==> #[trigger] comb(r, b, pos - j) == 2 || comb(
                r,
                b,
                pos - j,
            ) == 3,
        run_from(r, b, pos, fuel) < fuel ==> !(comb(r, b, pos - run_from(r, b, pos, fuel)) == 2
            || comb(r, b, pos - run_from(r, b, pos, fuel)) == 3),
    decreases fuel,
{
    if fuel > 0 && (comb(r, b, pos) == 2 || comb(r, b, pos) == 3) {
        lemma_run_char(r, b, pos - 1, (fuel - 1) as nat);
        assert forall|j: int| 0 <= j < run_from(r, b, pos, fuel) implies #[trigger] comb(
            r,
            b,
            pos - j,
        ) == 2 || comb(r, b, pos - j) == 3 by {
            if j > 0 {
                let jj = j - 1;
                assert(comb(r, b, (pos - 1) - jj) == 2 || comb(r, b, (pos - 1) - jj) == 3);
                assert(pos - j == (pos - 1) - jj);
            }
        }
    }
}


} // verus!
