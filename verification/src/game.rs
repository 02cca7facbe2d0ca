use crate::minefield::valid_config;
use crate::overlay::{
    adjacent, flag_effect, lemma_zero_adj_no_mine, revealed_cell, unflag_effect, Overlay,
    OverlayCell,
};
use vstd::prelude::*;

verus! {

#[derive(Clone, Copy, Debug, PartialEq, Eq, Structural)]
pub enum GameState {
    Waiting,
    Playing,
    GameOver,
    GameWon,
}

/// The top-level state machine. An overlay is owned exactly while the game is
/// out of the waiting state; it is replaced wholesale on a restart.
pub struct Game {
    state: GameState,
    overlay: Option<Overlay>,
}

/// Everything a dig does, seen from outside, once the game is playing:
/// the exact loss reveal, the pointwise evolution of every cell, the win and
/// loss transitions, and the flood-fill closure.
pub open spec fn dig_outcome(pre: Game, post: Game, rr: int, cc: int) -> bool {
    let o0 = pre.overlay_val();
    let o1 = post.overlay_val();
    let mined = o0.in_bounds(rr, cc) && o0.cell(rr, cc) is Covered && o0.mine_at(rr, cc);
    &&& post.spec_overlay() is Some
    &&& o1.field() == o0.field()
    // a dug mine loses: the dug cell explodes and the whole board is revealed
    &&& (mined ==> {
        &&& post.spec_state() is GameOver
        &&& o1.spec_flagcount() == o0.spec_flagcount()
        &&& forall|r: int, c: int|
            o0.in_bounds(r, c) ==> #[trigger] o1.cell(r, c) == (if r == rr && c == cc {
                OverlayCell::Exploded
            } else {
                revealed_cell(o0.cell(r, c), o0.mine_at(r, c))
            })
    })
    // otherwise the game cannot be lost by this call, and each cell either
    // keeps its look, is uncovered with its neighbour count, or is a covered
    // mine flagged by the win transition
    &&& (!mined ==> {
        &&& !(post.spec_state() is GameOver)
        &&& forall|r: int, c: int|
            o0.in_bounds(r, c) ==> {
                ||| #[trigger] o1.cell(r, c) == o0.cell(r, c)
                ||| (o0.cell(r, c) is Covered && !o0.mine_at(r, c) && o1.cell(r, c)
                    == OverlayCell::Uncovered(o0.adj_mines(r, c) as u8))
                ||| (o0.cell(r, c) is Covered && o0.mine_at(r, c) && post.spec_state() is GameWon
                    && o1.cell(r, c) is Flagged)
            }
    })
    // the dug safe cell itself is uncovered with its neighbour count
    &&& ((o0.in_bounds(rr, cc) && o0.cell(rr, cc) is Covered && !o0.mine_at(rr, cc)) ==> o1.cell(
        rr,
        cc,
    ) == OverlayCell::Uncovered(o0.adj_mines(rr, cc) as u8))
    // a dig that uncovers nothing and finds no finished board changes nothing
    &&& ((!(o0.in_bounds(rr, cc) && o0.cell(rr, cc) is Covered) && !o0.victory_spec()) ==> post
        == pre)
    // the state machine only moves forward out of playing
    &&& (post.spec_state() is Playing || post.spec_state() is GameOver || post.spec_state()
        is GameWon)
    // only the win transition places flags on the player's behalf
    &&& (!(post.spec_state() is GameWon) ==> o1.spec_flagcount() == o0.spec_flagcount())
    &&& (post.spec_state() is Playing ==> !o1.victory_spec())
    &&& (post.spec_state() is GameWon ==> o1.victory_spec() && forall|r: int, c: int|
        o0.in_bounds(r, c) ==> !(#[trigger] o1.cell(r, c) is Covered && o1.mine_at(r, c)))
    // a dig never leaves a newly opened zero cell with a covered neighbour:
    // the flood fill drains every zero region it opens up to its border
    &&& (forall|zr: int, zc: int, nr: int, nc: int|
        o0.in_bounds(zr, zc) && o0.in_bounds(nr, nc) && adjacent(zr, zc, nr, nc) && #[trigger] o1.cell(
            zr,
            zc,
        ) == OverlayCell::Uncovered(0u8) && #[trigger] o1.cell(nr, nc) is Covered ==> o0.cell(
            zr,
            zc,
        ) == OverlayCell::Uncovered(0u8) && o0.cell(nr, nc) is Covered)
}

/// A coordinate pair appears somewhere on the work stack.
pub open spec fn stack_holds(s: Seq<(i32, i32)>, r: int, c: int) -> bool {
    exists|k: int| 0 <= k < s.len() && (#[trigger] s[k]).0 as int == r && s[k].1 as int == c
}

/// Popping the stack keeps every coordinate on it but the popped one.
proof fn lemma_stack_holds_after_pop(pre: Seq<(i32, i32)>, post: Seq<(i32, i32)>, a: int, b: int)
    requires
        pre.len() > 0,
        post == pre.subrange(0, pre.len() - 1),
        stack_holds(pre, a, b),
        !(a == pre[pre.len() - 1].0 as int && b == pre[pre.len() - 1].1 as int),
    ensures
        stack_holds(post, a, b),
{
    let k0 = choose|k: int|
        0 <= k < pre.len() && (#[trigger] pre[k]).0 as int == a && pre[k].1 as int == b;
    assert(k0 < pre.len() - 1);
    assert(post[k0] == pre[k0]);
    assert(stack_holds(post, a, b));
}

/// Appends a coordinate to the work stack exactly when the overlay still has
/// it covered; existing entries are never touched.
fn push_if_covered(stack: &mut Vec<(i32, i32)>, ov: &Overlay, r: i32, c: i32)
    requires
        ov.wf(),
    ensures
        forall|k: int|
            0 <= k < old(stack)@.len() ==> #[trigger] final(stack)@[k] == old(stack)@[k],
        old(stack)@.len() <= final(stack)@.len(),
        forall|k: int|
            old(stack)@.len() <= k < final(stack)@.len() ==> #[trigger] final(stack)@[k] == (r, c)
                && ov.in_bounds(r as int, c as int) && ov.cell(r as int, c as int) is Covered,
        forall|a: int, b: int| stack_holds(old(stack)@, a, b) ==> #[trigger] stack_holds(
            final(stack)@,
            a,
            b,
        ),
        (ov.in_bounds(r as int, c as int) && ov.cell(r as int, c as int) is Covered)
            ==> stack_holds(final(stack)@, r as int, c as int),
        !(ov.in_bounds(r as int, c as int) && ov.cell(r as int, c as int) is Covered) ==> final(stack)@ == old(stack)@,
{
    let ghost pre = stack@;
    if ov.is_covered(r, c) {
        stack.push((r, c));
    }
    proof {
        assert forall|a: int, b: int| stack_holds(pre, a, b) implies #[trigger] stack_holds(
            stack@,
            a,
            b,
        ) by {
            let k0 = choose|k: int|
                0 <= k < pre.len() && (#[trigger] pre[k]).0 as int == a && pre[k].1 as int == b;
            assert(stack@[k0] == pre[k0]);
        }
        if ov.in_bounds(r as int, c as int) && ov.cell(r as int, c as int) is Covered {
            assert(stack@[pre.len() as int] == (r, c));
        }
    }
}

impl Game {
    pub closed spec fn spec_state(self) -> GameState {
        self.state
    }

    pub closed spec fn spec_overlay(self) -> Option<Overlay> {
        self.overlay
    }

    pub open spec fn overlay_val(self) -> Overlay {
        self.spec_overlay()->0
    }

    pub open spec fn wf(self) -> bool {
        &&& (self.spec_state() is Waiting <==> self.spec_overlay() is None)
        &&& (self.spec_overlay() matches Some(o) ==> o.wf())
    }

    pub fn new() -> (r: Game)
        ensures
            r.wf(),
            r.spec_state() is Waiting,
            r.spec_overlay() is None,
    {
        Game { state: GameState::Waiting, overlay: None }
    }

    pub fn get_state(&self) -> (r: GameState)
        ensures
            r == self.spec_state(),
    {
        self.state
    }

    pub fn get_rows(&self) -> (r: i32)
        requires
            self.wf(),
        ensures
            r as int == match self.spec_overlay() {
                Some(o) => o.spec_rows(),
                None => 0,
            },
    {
        match &self.overlay {
            Some(o) => o.get_rows(),
            None => 0,
        }
    }

    pub fn get_cols(&self) -> (r: i32)
        requires
            self.wf(),
        ensures
            r as int == match self.spec_overlay() {
                Some(o) => o.spec_cols(),
                None => 0,
            },
    {
        match &self.overlay {
            Some(o) => o.get_cols(),
            None => 0,
        }
    }

    pub fn get_cell(&self, row: i32, col: i32) -> (r: Option<OverlayCell>)
        requires
            self.wf(),
        ensures
            r == match self.spec_overlay() {
                Some(o) => if o.in_bounds(row as int, col as int) {
                    Some(o.cell(row as int, col as int))
                } else {
                    None::<OverlayCell>
                },
                None => None::<OverlayCell>,
            },
    {
        match &self.overlay {
            Some(o) => o.get_cell(row, col),
            None => None,
        }
    }

    /// Mines left to flag by the player's own count; over-flagging makes it
    /// negative on purpose.
    pub fn get_remaining_mines(&self) -> (r: i32)
        requires
            self.wf(),
        ensures
            r as int == match self.spec_overlay() {
                Some(o) => o.spec_minecount() - o.spec_flagcount(),
                None => 0,
            },
    {
        match &self.overlay {
            Some(o) => {
                proof {
                    o.lemma_count_bounds();
                    o.field().lemma_wf_config();
                }
                o.get_minecount() - o.get_flag_count()
            },
            None => 0,
        }
    }

    /// Starts or restarts a game; an invalid configuration is silently
    /// ignored and the previous state, whatever it was, is kept.
    pub fn begin_game(&mut self, rows: i32, cols: i32, minecount: i32)
        requires
            old(self).wf(),
        ensures
            final(self).wf(),
            !valid_config(rows as int, cols as int, minecount as int) ==> *final(self) == *old(self),
            valid_config(rows as int, cols as int, minecount as int) ==> {
                &&& final(self).spec_state() is Playing
                &&& final(self).spec_overlay() is Some
                &&& final(self).overlay_val().wf()
                &&& final(self).overlay_val().spec_rows() == rows as int
                &&& final(self).overlay_val().spec_cols() == cols as int
                &&& final(self).overlay_val().spec_minecount() == minecount as int
                &&& final(self).overlay_val().spec_flagcount() == 0
                &&& forall|r2: int, c2: int|
                    final(self).overlay_val().in_bounds(r2, c2) ==> final(self).overlay_val().cell(
                        r2,
                        c2,
                    ) is Covered
            },
    {
        match Overlay::new(rows, cols, minecount) {
            Ok(ov) => {
                self.state = GameState::Playing;
                self.overlay = Some(ov);
            },
            Err(_) => {},
        }
    }

    /// Toggles a flag while playing: a flagged cell is unflagged, a covered
    /// cell flagged, anything else, or any action out of play, does nothing.
    pub fn toggle_flag(&mut self, row: i32, col: i32)
        requires
            old(self).wf(),
        ensures
            final(self).wf(),
            final(self).spec_state() == old(self).spec_state(),
            !(old(self).spec_state() is Playing) ==> *final(self) == *old(self),
            old(self).spec_state() is Playing ==> {
                &&& final(self).spec_overlay() is Some
                &&& if old(self).overlay_val().in_bounds(row as int, col as int) && old(self).overlay_val().cell(row as int, col as int) is Flagged {
                    unflag_effect(
                        old(self).overlay_val(),
                        final(self).overlay_val(),
                        row as int,
                        col as int,
                    )
                } else {
                    flag_effect(
                        old(self).overlay_val(),
                        final(self).overlay_val(),
                        row as int,
                        col as int,
                    )
                }
            },
    {
        if !matches!(self.state, GameState::Playing) {
            return ;
        }
        let ov_opt = self.overlay.take();
        let mut ov = match ov_opt {
            Some(o) => o,
            None => {
                proof {
                    assert(false);
                }
                return ;
            },
        };
        let cur = ov.get_cell(row, col);
        match cur {
            Some(OverlayCell::Flagged) => ov.unflag(row, col),
            Some(OverlayCell::Covered) => ov.flag(row, col),
            _ => {},
        }
        self.overlay = Some(ov);
    }

    /// Digs a cell while playing, flood-filling connected zero regions, and
    /// settles the game: a dug mine loses and reveals the board, a finished
    /// board wins and flags the remaining mines.
    pub fn dig(&mut self, row: i32, col: i32)
        requires
            old(self).wf(),
        ensures
            final(self).wf(),
            final(self).spec_overlay() is Some <==> old(self).spec_overlay() is Some,
            !(old(self).spec_state() is Playing) ==> *final(self) == *old(self),
            old(self).spec_state() is Playing ==> dig_outcome(
                *old(self),
                *final(self),
                row as int,
                col as int,
            ),
    {
        if !matches!(self.state, GameState::Playing) {
            return ;
        }
        let ov_opt = self.overlay.take();
        let mut ov = match ov_opt {
            Some(o) => o,
            None => {
                proof {
                    assert(false);
                }
                return ;
            },
        };
        let ghost g0 = ov;
        let ghost rr = row as int;
        let ghost cc = col as int;
        let ghost mined = g0.in_bounds(rr, cc) && g0.cell(rr, cc) is Covered && g0.mine_at(rr, cc);
        let ghost started = g0.in_bounds(rr, cc) && g0.cell(rr, cc) is Covered;
        let mut stack: Vec<(i32, i32)> = Vec::new();
        if ov.is_covered(row, col) {
            stack.push((row, col));
        }
        let mut game_over = false;
        while stack.len() > 0
            invariant
                g0.wf(),
                ov.wf(),
                ov.field() == g0.field(),
                ov.spec_flagcount() == g0.spec_flagcount(),
                mined == (g0.in_bounds(rr, cc) && g0.cell(rr, cc) is Covered && g0.mine_at(rr, cc)),
                started == (g0.in_bounds(rr, cc) && g0.cell(rr, cc) is Covered),
                rr == row as int,
                cc == col as int,
                forall|k: int|
                    0 <= k < stack@.len() ==> g0.in_bounds(
                        (#[trigger] stack@[k]).0 as int,
                        stack@[k].1 as int,
                    ),
                !game_over ==> forall|r: int, c: int|
                    g0.in_bounds(r, c) ==> {
                        ||| #[trigger] ov.cell(r, c) == g0.cell(r, c)
                        ||| (g0.cell(r, c) is Covered && !g0.mine_at(r, c) && ov.cell(r, c)
                            == OverlayCell::Uncovered(g0.adj_mines(r, c) as u8))
                    },
                mined ==> ((!game_over && ov == g0 && stack@ =~= seq![(row, col)]) || (game_over
                    && stack@.len() == 0 && forall|r: int, c: int|
                    g0.in_bounds(r, c) ==> #[trigger] ov.cell(r, c) == (if r == rr && c == cc {
                        OverlayCell::Exploded
                    } else {
                        revealed_cell(g0.cell(r, c), g0.mine_at(r, c))
                    }))),
                !mined ==> !game_over,
                !mined ==> forall|k: int|
                    0 <= k < stack@.len() ==> !g0.mine_at(
                        (#[trigger] stack@[k]).0 as int,
                        stack@[k].1 as int,
                    ),
                (started && !mined) ==> ((ov == g0 && stack@ =~= seq![(row, col)]) || ov.cell(
                    rr,
                    cc,
                ) == OverlayCell::Uncovered(g0.adj_mines(rr, cc) as u8)),
                !started ==> (ov == g0 && stack@.len() == 0 && !game_over),
                forall|zr: int, zc: int, nr: int, nc: int|
                    g0.in_bounds(zr, zc) && g0.in_bounds(nr, nc) && adjacent(zr, zc, nr, nc)
                        && #[trigger] ov.cell(zr, zc) == OverlayCell::Uncovered(0u8)
                        && #[trigger] ov.cell(nr, nc) is Covered ==> (g0.cell(zr, zc)
                        == OverlayCell::Uncovered(0u8) || stack_holds(stack@, nr, nc)),
            decreases ov.covered_count(), stack@.len(),
        {
            proof {
                ov.lemma_count_bounds();
            }
            let ghost pre_stack = stack@;
            let (r, c) = stack.pop().unwrap();
            if !ov.is_covered(r, c) {
                // a duplicate entry, already dug through another path; the
                // cells it would reach were pushed when it was first opened
                proof {
                    assert forall|zr: int, zc: int, nr: int, nc: int|
                        g0.in_bounds(zr, zc) && g0.in_bounds(nr, nc) && adjacent(zr, zc, nr, nc)
                            && #[trigger] ov.cell(zr, zc) == OverlayCell::Uncovered(0u8)
                            && #[trigger] ov.cell(nr, nc) is Covered && !(g0.cell(zr, zc)
                            == OverlayCell::Uncovered(0u8)) implies stack_holds(
                        stack@,
                        nr,
                        nc,
                    ) by {
                        assert(stack_holds(pre_stack, nr, nc));
                        lemma_stack_holds_after_pop(pre_stack, stack@, nr, nc);
                    }
                }
            } else {
                let ghost pre = ov;
                let res = ov.dig(r, c);
                match res {
                    Some(OverlayCell::Exploded) => {
                        game_over = true;
                        let ghost dug = ov;
                        ov.reveal_mines();
                        proof {
                            assert(mined);
                            assert(pre == g0 && pre_stack =~= seq![(row, col)]);
                            assert((r, c) == (row, col));
                            assert(stack@.len() == 0);
                            assert forall|r2: int, c2: int| g0.in_bounds(r2, c2)
                                implies #[trigger] ov.cell(r2, c2) == (if r2 == rr && c2 == cc {
                                OverlayCell::Exploded
                            } else {
                                revealed_cell(g0.cell(r2, c2), g0.mine_at(r2, c2))
                            }) by {
                                if r2 == rr && c2 == cc {
                                    assert(dug.cell(r2, c2) == OverlayCell::Exploded);
                                } else {
                                    assert(dug.cell(r2, c2) == g0.cell(r2, c2));
                                }
                            }
                        }
                    },
                    Some(OverlayCell::Uncovered(n)) => {
                        proof {
                            g0.field().lemma_wf_config();
                            assert(0 <= pre.adj_mines(r as int, c as int) <= 8);
                            if mined {
                                assert(pre == g0 && (r, c) == (row, col));
                                assert(false);
                            }
                        }
                        if n == 0 {
                            proof {
                                assert(g0.adj_mines(r as int, c as int) == 0);
                            }
                            let ghost s0 = stack@;
                            push_if_covered(&mut stack, &ov, r - 1, c - 1);
                            push_if_covered(&mut stack, &ov, r - 1, c);
                            push_if_covered(&mut stack, &ov, r - 1, c + 1);
                            push_if_covered(&mut stack, &ov, r, c - 1);
                            push_if_covered(&mut stack, &ov, r, c + 1);
                            push_if_covered(&mut stack, &ov, r + 1, c - 1);
                            push_if_covered(&mut stack, &ov, r + 1, c);
                            push_if_covered(&mut stack, &ov, r + 1, c + 1);
                            proof {
                                assert forall|a: int, b: int| stack_holds(s0, a, b)
                                    implies #[trigger] stack_holds(stack@, a, b) by {}
                                assert forall|nr2: int, nc2: int|
                                    adjacent(r as int, c as int, nr2, nc2) && ov.in_bounds(
                                        nr2,
                                        nc2,
                                    ) && #[trigger] ov.cell(nr2, nc2) is Covered
                                    implies stack_holds(stack@, nr2, nc2) by {
                                    assert(nr2 == r as int - 1 || nr2 == r as int || nr2 == r as int
                                        + 1);
                                    assert(nc2 == c as int - 1 || nc2 == c as int || nc2 == c as int
                                        + 1);
                                }
                                lemma_dig_step_closure(
                                    g0,
                                    pre,
                                    ov,
                                    pre_stack,
                                    s0,
                                    stack@,
                                    r as int,
                                    c as int,
                                );
                                assert forall|k: int|
                                    0 <= k < stack@.len() implies g0.in_bounds(
                                    (#[trigger] stack@[k]).0 as int,
                                    stack@[k].1 as int,
                                ) && !g0.mine_at(stack@[k].0 as int, stack@[k].1 as int) by {
                                    if k < s0.len() {
                                        assert(pre_stack[k] == stack@[k]);
                                    } else {
                                        lemma_zero_adj_no_mine(
                                            g0,
                                            r as int,
                                            c as int,
                                            stack@[k].0 as int,
                                            stack@[k].1 as int,
                                        );
                                    }
                                }
                            }
                        } else {
                            proof {
                                assert(pre.adj_mines(r as int, c as int) != 0);
                                lemma_dig_step_closure(
                                    g0,
                                    pre,
                                    ov,
                                    pre_stack,
                                    stack@,
                                    stack@,
                                    r as int,
                                    c as int,
                                );
                                assert forall|k: int|
                                    0 <= k < stack@.len() implies g0.in_bounds(
                                    (#[trigger] stack@[k]).0 as int,
                                    stack@[k].1 as int,
                                ) && !g0.mine_at(stack@[k].0 as int, stack@[k].1 as int) by {
                                    assert(pre_stack[k] == stack@[k]);
                                }
                            }
                        }
                    },
                    _ => {
                        proof {
                            assert(false);
                        }
                    },
                }
            }
            proof {
                ov.lemma_count_bounds();
            }
        }
        if game_over {
            self.state = GameState::GameOver;
            self.overlay = Some(ov);
        } else {
            let won = ov.is_victory_condition();
            if won {
                let ghost drained = ov;
                ov.flag_all_mines();
                self.state = GameState::GameWon;
                self.overlay = Some(ov);
                proof {
                    assert forall|r2: int, c2: int| g0.in_bounds(r2, c2) implies {
                        ||| #[trigger] ov.cell(r2, c2) == g0.cell(r2, c2)
                        ||| (g0.cell(r2, c2) is Covered && !g0.mine_at(r2, c2) && ov.cell(r2, c2)
                            == OverlayCell::Uncovered(g0.adj_mines(r2, c2) as u8))
                        ||| (g0.cell(r2, c2) is Covered && g0.mine_at(r2, c2) && ov.cell(r2, c2)
                            is Flagged)
                    } by {
                        assert(drained.cell(r2, c2) == g0.cell(r2, c2) || (g0.cell(r2, c2)
                            is Covered && !g0.mine_at(r2, c2) && drained.cell(r2, c2)
                            == OverlayCell::Uncovered(g0.adj_mines(r2, c2) as u8)));
                    }
                }
            } else {
                self.overlay = Some(ov);
            }
        }
    }
}

/// One flood-fill step keeps the closure intact: after digging a covered safe
/// cell, every zero cell that did not start as one has all of its still
/// covered neighbours waiting on the stack.
proof fn lemma_dig_step_closure(
    g0: Overlay,
    pre: Overlay,
    post: Overlay,
    pre_stack: Seq<(i32, i32)>,
    popped: Seq<(i32, i32)>,
    new_stack: Seq<(i32, i32)>,
    dr: int,
    dc: int,
)
    requires
        g0.wf(),
        pre.wf(),
        post.wf(),
        pre.field() == g0.field(),
        post.field() == g0.field(),
        pre_stack.len() > 0,
        popped == pre_stack.subrange(0, pre_stack.len() - 1),
        pre_stack[pre_stack.len() - 1].0 as int == dr,
        pre_stack[pre_stack.len() - 1].1 as int == dc,
        pre.in_bounds(dr, dc),
        pre.cell(dr, dc) is Covered,
        !pre.mine_at(dr, dc),
        post.cell(dr, dc) == OverlayCell::Uncovered(pre.adj_mines(dr, dc) as u8),
        forall|r2: int, c2: int|
            pre.in_bounds(r2, c2) && !(r2 == dr && c2 == dc) ==> #[trigger] post.cell(r2, c2)
                == pre.cell(r2, c2),
        // the old closure, relative to the old stack
        forall|zr: int, zc: int, nr: int, nc: int|
            g0.in_bounds(zr, zc) && g0.in_bounds(nr, nc) && adjacent(zr, zc, nr, nc)
                && #[trigger] pre.cell(zr, zc) == OverlayCell::Uncovered(0u8) && #[trigger] pre.cell(
                nr,
                nc,
            ) is Covered ==> (g0.cell(zr, zc) == OverlayCell::Uncovered(0u8) || stack_holds(
                pre_stack,
                nr,
                nc,
            )),
        // the new stack keeps every coordinate that survived the pop
        forall|a: int, b: int|
            stack_holds(popped, a, b) ==> #[trigger] stack_holds(new_stack, a, b),
        // if the dug cell came out zero, every covered neighbour was pushed
        (pre.adj_mines(dr, dc) == 0) ==> forall|nr: int, nc: int|
            adjacent(dr, dc, nr, nc) && post.in_bounds(nr, nc) && #[trigger] post.cell(nr, nc)
                is Covered ==> stack_holds(new_stack, nr, nc),
    ensures
        forall|zr: int, zc: int, nr: int, nc: int|
            g0.in_bounds(zr, zc) && g0.in_bounds(nr, nc) && adjacent(zr, zc, nr, nc)
                && #[trigger] post.cell(zr, zc) == OverlayCell::Uncovered(0u8)
                && #[trigger] post.cell(nr, nc) is Covered ==> (g0.cell(zr, zc)
                == OverlayCell::Uncovered(0u8) || stack_holds(new_stack, nr, nc)),
{
    assert(0 <= pre.adj_mines(dr, dc) <= 8);
    assert forall|zr: int, zc: int, nr: int, nc: int|
        g0.in_bounds(zr, zc) && g0.in_bounds(nr, nc) && adjacent(zr, zc, nr, nc)
            && #[trigger] post.cell(zr, zc) == OverlayCell::Uncovered(0u8) && #[trigger] post.cell(
            nr,
            nc,
        ) is Covered && !(g0.cell(zr, zc) == OverlayCell::Uncovered(0u8)) implies stack_holds(
        new_stack,
        nr,
        nc,
    ) by {
        // the covered neighbour cannot be the cell that was just dug
        assert(!(nr == dr && nc == dc));
        assert(post.cell(nr, nc) == pre.cell(nr, nc));
        if zr == dr && zc == dc {
            // a newly opened zero: all its covered neighbours were pushed
            assert(pre.adj_mines(dr, dc) == 0);
        } else {
            // a zero from before this step: its entry survives the pop,
            // because the popped cell is no longer covered
            assert(pre.cell(zr, zc) == post.cell(zr, zc));
            assert(stack_holds(pre_stack, nr, nc));
            lemma_stack_holds_after_pop(pre_stack, popped, nr, nc);
        }
    }
}

impl Default for Game {
    /// A fresh game waits for its first configuration.
    fn default() -> (r: Game)
        ensures
            r.wf(),
            r.spec_state() is Waiting,
            r.spec_overlay() is None,
    {
        Game::new()
    }
}

} // verus!
