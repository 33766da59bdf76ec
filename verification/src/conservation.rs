use vstd::prelude::*;

use crate::active_game::{
    cell_valid, dealt_hand, discarded, discarded_from, kept_from, kept_hand, lemma_refilled_len, refill_count,
    refill_fits, refilled_bag, refilled_hand, reversed, with_equals, ActiveGame, ClickEffect, ClickTarget,
    ControlButton, Player, PointerButton,
};
use crate::board::{has_equals, in_board, made_permanent, nth_position, without_temporary, Board};
use crate::tiles::{initial_bag, Tile, TileOnBoard, TileStatus};
use vstd::multiset::Multiset;

verus! {

// The digits and operators of a game are those of the bag it started with:
// they move between the bag, the hands, the board and the pointer, and
// none is made or lost. Equals signs are handed out as needed instead.

/// The contents of the tiles among the first `n` squares, in row-major
/// order.
pub open spec fn board_contents_upto(b: Board, n: int) -> Seq<Tile>
    decreases n,
{
    if n <= 0 {
        Seq::empty()
    } else {
        let prev = board_contents_upto(b, n - 1);
        let p = nth_position(n - 1);
        if b.occupied(p.0, p.1) {
            prev.push(b.cell(p.0, p.1).unwrap().content)
        } else {
            prev
        }
    }
}

/// The contents of every tile on the board.
pub open spec fn board_contents(b: Board) -> Multiset<Tile> {
    board_contents_upto(b, 225).to_multiset()
}

/// What square `(x, y)` holds, as a multiset.
pub open spec fn tile_at(b: Board, x: int, y: int) -> Multiset<Tile> {
    if b.occupied(x, y) {
        Multiset::singleton(b.cell(x, y).unwrap().content)
    } else {
        Multiset::empty()
    }
}

/// Changing one square changes the tiles on the board by what that square
/// adds or takes away.
pub proof fn lemma_update_contents(new: Board, old: Board, x: int, y: int, v: Option<TileOnBoard>, n: int)
    requires
        new.is_update_of(old, x, y, v),
        in_board(x, y),
        0 <= n <= 225,
    ensures
        board_contents_upto(new, n).to_multiset().add(
            if x * 15 + y < n { tile_at(old, x, y) } else { Multiset::empty() },
        ) == board_contents_upto(old, n).to_multiset().add(
            if x * 15 + y < n { tile_at(new, x, y) } else { Multiset::empty() },
        ),
    decreases n,
{
    broadcast use vstd::multiset::group_multiset_axioms, vstd::multiset::group_multiset_properties,
        vstd::seq_lib::group_to_multiset_ensures;

    if n == 0 {
        assert(board_contents_upto(new, 0).to_multiset() =~= Multiset::empty());
        assert(board_contents_upto(old, 0).to_multiset() =~= Multiset::empty());
    } else {
        lemma_update_contents(new, old, x, y, v, n - 1);
        let p = nth_position(n - 1);
        assert(in_board(p.0, p.1));
        let a = board_contents_upto(new, n - 1).to_multiset();
        let b = board_contents_upto(old, n - 1).to_multiset();
        if n - 1 == x * 15 + y {
            assert(p == (x, y));
            assert(a.add(Multiset::empty()) =~= a);
            assert(b.add(Multiset::empty()) =~= b);
            assert(a == b);
            assert(board_contents_upto(new, n).to_multiset() =~= a.add(tile_at(new, x, y)));
            assert(board_contents_upto(old, n).to_multiset() =~= b.add(tile_at(old, x, y)));
            assert(a.add(tile_at(new, x, y)).add(tile_at(old, x, y)) =~= b.add(tile_at(old, x, y)).add(
                tile_at(new, x, y),
            ));
        } else {
            assert(p.0 * 15 + p.1 == n - 1);
            assert(p != (x, y));
            assert(new.cell(p.0, p.1) == old.cell(p.0, p.1));
            let e_old = if x * 15 + y < n - 1 { tile_at(old, x, y) } else { Multiset::empty() };
            let e_new = if x * 15 + y < n - 1 { tile_at(new, x, y) } else { Multiset::empty() };
            assert(a.add(e_old) =~= b.add(e_new));
            assert(board_contents_upto(new, n).to_multiset() =~= a.add(tile_at(new, p.0, p.1)));
            assert(board_contents_upto(old, n).to_multiset() =~= b.add(tile_at(old, p.0, p.1)));
            let t = tile_at(new, p.0, p.1);
            assert(t == tile_at(old, p.0, p.1));
            assert(a.add(t).add(e_old) =~= a.add(e_old).add(t));
            assert(b.add(t).add(e_new) =~= b.add(e_new).add(t));
            assert(board_contents_upto(new, n).to_multiset().add(e_old) == board_contents_upto(old, n).to_multiset().add(
                e_new,
            ));
        }
    }
}

/// Boards whose squares hold tiles with the same contents hold the same
/// tiles.
pub proof fn lemma_same_contents(new: Board, old: Board, n: int)
    requires
        0 <= n <= 225,
        forall|x: int, y: int|
            in_board(x, y) ==> (#[trigger] new.occupied(x, y) <==> old.occupied(x, y)) && (new.occupied(x, y)
                ==> new.cell(x, y).unwrap().content == old.cell(x, y).unwrap().content),
    ensures
        board_contents_upto(new, n) == board_contents_upto(old, n),
    decreases n,
{
    if n > 0 {
        lemma_same_contents(new, old, n - 1);
        let p = nth_position(n - 1);
        assert(in_board(p.0, p.1));
        assert(new.occupied(p.0, p.1) <==> old.occupied(p.0, p.1));
    }
}

/// Taking every temporary tile off the board leaves the other tiles: the
/// tiles on the board afterwards and those taken are the tiles before.
pub proof fn lemma_remove_temporary_contents(new: Board, old: Board, n: int)
    requires
        0 <= n <= 225,
        forall|x: int, y: int| in_board(x, y) ==> #[trigger] new.cell(x, y) == without_temporary(old.cell(x, y)),
    ensures
        board_contents_upto(new, n).to_multiset().add(old.temp_contents_upto(n).to_multiset())
            == board_contents_upto(old, n).to_multiset(),
    decreases n,
{
    broadcast use vstd::multiset::group_multiset_axioms, vstd::multiset::group_multiset_properties,
        vstd::seq_lib::group_to_multiset_ensures;

    if n == 0 {
        assert(board_contents_upto(new, 0).to_multiset() =~= Multiset::empty());
        assert(board_contents_upto(old, 0).to_multiset() =~= Multiset::empty());
        assert(old.temp_contents_upto(0).to_multiset() =~= Multiset::empty());
        assert(Multiset::<Tile>::empty().add(Multiset::empty()) =~= Multiset::empty());
    } else {
        lemma_remove_temporary_contents(new, old, n - 1);
        let p = nth_position(n - 1);
        assert(in_board(p.0, p.1));
        assert(new.cell(p.0, p.1) == without_temporary(old.cell(p.0, p.1)));
        let a = board_contents_upto(new, n - 1).to_multiset();
        let t = old.temp_contents_upto(n - 1).to_multiset();
        let b = board_contents_upto(old, n - 1).to_multiset();
        assert(a.add(t) == b);
        if old.temporary(p.0, p.1) {
            let c = old.cell(p.0, p.1).unwrap().content;
            assert(!new.occupied(p.0, p.1));
            assert(board_contents_upto(new, n).to_multiset() == a);
            assert(old.temp_contents_upto(n).to_multiset() =~= t.insert(c));
            assert(board_contents_upto(old, n).to_multiset() =~= b.insert(c));
            assert(a.add(t.insert(c)) =~= a.add(t).insert(c));
        } else if old.occupied(p.0, p.1) {
            let c = old.cell(p.0, p.1).unwrap().content;
            assert(new.occupied(p.0, p.1));
            assert(board_contents_upto(new, n).to_multiset() =~= a.insert(c));
            assert(old.temp_contents_upto(n).to_multiset() == t);
            assert(board_contents_upto(old, n).to_multiset() =~= b.insert(c));
            assert(a.insert(c).add(t) =~= a.add(t).insert(c));
        } else {
            assert(!new.occupied(p.0, p.1));
        }
    }
}

/// The tiles in the hands of the first `n` players.
pub open spec fn hands_upto(ps: Seq<Player>, n: int) -> Multiset<Tile>
    decreases n,
{
    if n <= 0 {
        Multiset::empty()
    } else {
        hands_upto(ps, n - 1).add(ps[n - 1].hand@.to_multiset())
    }
}

/// The tile in move, as a multiset.
pub open spec fn in_move_tiles(g: ActiveGame) -> Multiset<Tile> {
    match g.in_move() {
        Some(t) => Multiset::singleton(t),
        None => Multiset::empty(),
    }
}

/// Every tile of a game: in the bag, in the hands, on the board and in move.
pub open spec fn all_tiles(g: ActiveGame) -> Multiset<Tile> {
    g.tiles_in_bag@.to_multiset().add(hands_upto(g.players@, g.players@.len() as int)).add(
        board_contents(g.board),
    ).add(in_move_tiles(g))
}

/// The same digits and operators: every tile but the equals sign comes as
/// often in both.
pub open spec fn same_tiles(a: Multiset<Tile>, b: Multiset<Tile>) -> bool {
    forall|t: Tile| t != Tile::EqualsSign ==> #[trigger] a.count(t) == b.count(t)
}

/// Where only player `i` changed, the hands changed by what that player's
/// hand did.
pub proof fn lemma_hands_update(old: Seq<Player>, new: Seq<Player>, i: int, n: int)
    requires
        old.len() == new.len(),
        0 <= i < old.len(),
        0 <= n <= old.len(),
        forall|k: int| 0 <= k < old.len() && k != i ==> #[trigger] new[k] == old[k],
    ensures
        hands_upto(new, n).add(if i < n { old[i].hand@.to_multiset() } else { Multiset::empty() }) == hands_upto(
            old,
            n,
        ).add(if i < n { new[i].hand@.to_multiset() } else { Multiset::empty() }),
    decreases n,
{
    broadcast use vstd::multiset::group_multiset_axioms, vstd::multiset::group_multiset_properties;

    if n == 0 {
        assert(hands_upto(new, 0).add(Multiset::empty()) =~= hands_upto(old, 0).add(Multiset::empty()));
    } else {
        lemma_hands_update(old, new, i, n - 1);
        let a = hands_upto(new, n - 1);
        let b = hands_upto(old, n - 1);
        if n - 1 == i {
            assert(a.add(Multiset::empty()) =~= a);
            assert(b.add(Multiset::empty()) =~= b);
            assert(hands_upto(new, n).add(old[i].hand@.to_multiset()) =~= hands_upto(old, n).add(
                new[i].hand@.to_multiset(),
            ));
        } else {
            assert(new[n - 1] == old[n - 1]);
            let e_old = if i < n - 1 { old[i].hand@.to_multiset() } else { Multiset::empty() };
            let e_new = if i < n - 1 { new[i].hand@.to_multiset() } else { Multiset::empty() };
            let h = old[n - 1].hand@.to_multiset();
            assert(a.add(e_old) == b.add(e_new));
            assert(a.add(h).add(e_old) =~= a.add(e_old).add(h));
            assert(b.add(h).add(e_new) =~= b.add(e_new).add(h));
        }
    }
}

/// The tiles of a game in which only the current player's hand, the board,
/// the bag and the tile in move may have changed, written out.
pub proof fn lemma_all_tiles_split(g: ActiveGame, new: ActiveGame)
    requires
        g.player_index < g.players@.len(),
        new.players@.len() == g.players@.len(),
        forall|k: int| 0 <= k < g.players@.len() && k != g.player_index ==> #[trigger] new.players@[k] == g.players@[k],
    ensures
        all_tiles(new).add(g.cur_hand_tiles()).add(g.tiles_in_bag@.to_multiset()).add(board_contents(g.board)).add(
            in_move_tiles(g),
        ) == all_tiles(g).add(new.hand_of(g.player_index as int).to_multiset()).add(
            new.tiles_in_bag@.to_multiset(),
        ).add(board_contents(new.board)).add(in_move_tiles(new)),
{
    broadcast use vstd::multiset::group_multiset_axioms;

    let n = g.players@.len() as int;
    lemma_hands_update(g.players@, new.players@, g.player_index as int, n);
    let hn = hands_upto(new.players@, n);
    let ho = hands_upto(g.players@, n);
    assert(hn.add(g.cur_hand_tiles()) == ho.add(new.hand_of(g.player_index as int).to_multiset()));
    assert forall|v: Tile| #[trigger] hn.count(v) + g.cur_hand_tiles().count(v) == ho.count(v) + new.hand_of(
        g.player_index as int,
    ).to_multiset().count(v) by {
        assert(hn.add(g.cur_hand_tiles()).count(v) == ho.add(new.hand_of(g.player_index as int).to_multiset()).count(v));
    }
    assert(all_tiles(new).add(g.cur_hand_tiles()).add(g.tiles_in_bag@.to_multiset()).add(board_contents(g.board)).add(
        in_move_tiles(g),
    ) =~= all_tiles(g).add(new.hand_of(g.player_index as int).to_multiset()).add(new.tiles_in_bag@.to_multiset()).add(
        board_contents(new.board),
    ).add(in_move_tiles(new)));
}

/// When the tiles that moved between the current player's hand, the bag,
/// the board and the pointer are the same digits and operators before and
/// after, the game holds the same digits and operators.
pub proof fn lemma_same_tiles_from_moves(g: ActiveGame, new: ActiveGame)
    requires
        g.player_index < g.players@.len(),
        new.players@.len() == g.players@.len(),
        forall|k: int| 0 <= k < g.players@.len() && k != g.player_index ==> #[trigger] new.players@[k] == g.players@[k],
        forall|t: Tile|
            t != Tile::EqualsSign ==> #[trigger] new.hand_of(g.player_index as int).to_multiset().count(t)
                + new.tiles_in_bag@.to_multiset().count(t) + board_contents(new.board).count(t) + in_move_tiles(
                new,
            ).count(t) == g.cur_hand_tiles().count(t) + g.tiles_in_bag@.to_multiset().count(t) + board_contents(
                g.board,
            ).count(t) + in_move_tiles(g).count(t),
    ensures
        same_tiles(all_tiles(new), all_tiles(g)),
{
    broadcast use vstd::multiset::group_multiset_axioms;

    lemma_all_tiles_split(g, new);
    let l = all_tiles(new).add(g.cur_hand_tiles()).add(g.tiles_in_bag@.to_multiset()).add(board_contents(g.board)).add(
        in_move_tiles(g),
    );
    let r = all_tiles(g).add(new.hand_of(g.player_index as int).to_multiset()).add(new.tiles_in_bag@.to_multiset()).add(
        board_contents(new.board),
    ).add(in_move_tiles(new));
    assert forall|t: Tile| t != Tile::EqualsSign implies #[trigger] all_tiles(new).count(t) == all_tiles(g).count(t) by {
        assert(l.count(t) == r.count(t));
        assert(new.hand_of(g.player_index as int).to_multiset().count(t) + new.tiles_in_bag@.to_multiset().count(t)
            + board_contents(new.board).count(t) + in_move_tiles(new).count(t) == g.cur_hand_tiles().count(t)
            + g.tiles_in_bag@.to_multiset().count(t) + board_contents(g.board).count(t) + in_move_tiles(g).count(t));
    }
}

/// Picking up a tile from the hand keeps the digits and operators.
pub proof fn lemma_pick_up_from_hand_keeps_tiles(g: ActiveGame, x: int, new: ActiveGame)
    requires
        g.wf(),
        0 <= x < g.cur_hand().len(),
        g.after_pick_up_from_hand(x, &new),
    ensures
        same_tiles(all_tiles(new), all_tiles(g)),
{
    broadcast use vstd::multiset::group_multiset_axioms, vstd::seq_lib::group_to_multiset_ensures;

    if g.placing() && g.in_move() is None {
        let h = g.cur_hand();
        assert(h.contains(h[x]));
        assert(h.to_multiset().count(h[x]) > 0);
        lemma_same_tiles_from_moves(g, new);
    }
}

/// Picking up a tile from the board keeps the digits and operators.
pub proof fn lemma_pick_up_from_board_keeps_tiles(g: ActiveGame, x: int, y: int, new: ActiveGame)
    requires
        g.wf(),
        in_board(x, y),
        g.after_pick_up_from_board(x, y, &new),
    ensures
        same_tiles(all_tiles(new), all_tiles(g)),
{
    broadcast use vstd::multiset::group_multiset_axioms;

    if g.placing() && g.in_move() is None && g.board.temporary(x, y) {
        lemma_update_contents(new.board, g.board, x, y, None, 225);
        assert(x * 15 + y < 225);
        let l = board_contents(new.board).add(tile_at(g.board, x, y));
        let r = board_contents(g.board).add(tile_at(new.board, x, y));
        assert forall|t: Tile| #[trigger] board_contents(new.board).count(t) + tile_at(g.board, x, y).count(t)
            == board_contents(g.board).count(t) by {
            assert(l.count(t) == r.count(t));
        }
        lemma_same_tiles_from_moves(g, new);
    }
}

/// Dropping the tile in move into the hand keeps the digits and operators.
pub proof fn lemma_put_to_hand_keeps_tiles(g: ActiveGame, new: ActiveGame)
    requires
        g.wf(),
        g.after_put_to_hand(&new),
    ensures
        same_tiles(all_tiles(new), all_tiles(g)),
{
    broadcast use vstd::multiset::group_multiset_axioms, vstd::seq_lib::group_to_multiset_ensures;

    if g.in_move() is Some {
        lemma_same_tiles_from_moves(g, new);
    }
}

/// Dropping the tile in move on the board keeps the digits and operators.
pub proof fn lemma_put_on_board_keeps_tiles(g: ActiveGame, x: int, y: int, new: ActiveGame)
    requires
        g.wf(),
        in_board(x, y),
        g.after_put_on_board(x, y, &new),
    ensures
        same_tiles(all_tiles(new), all_tiles(g)),
{
    broadcast use vstd::multiset::group_multiset_axioms;

    if g.in_move() is Some && g.board.cell(x, y) is None {
        let t0 = TileOnBoard { content: g.in_move().unwrap(), status: TileStatus::Temporary };
        lemma_update_contents(new.board, g.board, x, y, Some(t0), 225);
        assert(x * 15 + y < 225);
        assert(new.board.occupied(x, y));
        let l = board_contents(new.board).add(tile_at(g.board, x, y));
        let r = board_contents(g.board).add(tile_at(new.board, x, y));
        assert forall|t: Tile| #[trigger] board_contents(new.board).count(t) == board_contents(g.board).count(t)
            + tile_at(new.board, x, y).count(t) by {
            assert(l.count(t) == r.count(t));
        }
        lemma_same_tiles_from_moves(g, new);
    }
}

/// Taking back one temporary tile keeps the digits and operators.
pub proof fn lemma_pop_tile_keeps_tiles(g: ActiveGame, x: int, y: int, new: ActiveGame)
    requires
        g.wf(),
        in_board(x, y),
        g.after_pop_tile(x, y, &new),
    ensures
        same_tiles(all_tiles(new), all_tiles(g)),
{
    broadcast use vstd::multiset::group_multiset_axioms, vstd::seq_lib::group_to_multiset_ensures;

    if g.board.temporary(x, y) {
        lemma_update_contents(new.board, g.board, x, y, None, 225);
        assert(x * 15 + y < 225);
        let l = board_contents(new.board).add(tile_at(g.board, x, y));
        let r = board_contents(g.board).add(tile_at(new.board, x, y));
        assert forall|t: Tile| #[trigger] board_contents(new.board).count(t) + tile_at(g.board, x, y).count(t)
            == board_contents(g.board).count(t) by {
            assert(l.count(t) == r.count(t));
        }
        lemma_same_tiles_from_moves(g, new);
    }
}

/// Moving every temporary tile from the board to the end of the hand keeps
/// the tiles of the board and the hand together.
proof fn lemma_tiles_back_to_hand(g: ActiveGame, new: ActiveGame)
    requires
        g.board.wf(),
        g.player_index < g.players@.len(),
        new.hand_of(g.player_index as int) == g.cur_hand() + g.board.temp_contents(),
        forall|x: int, y: int| in_board(x, y) ==> #[trigger] new.board.cell(x, y) == without_temporary(g.board.cell(x, y)),
    ensures
        forall|t: Tile| #[trigger] new.hand_of(g.player_index as int).to_multiset().count(t) + board_contents(new.board).count(t)
            == g.cur_hand_tiles().count(t) + board_contents(g.board).count(t),
{
    broadcast use vstd::multiset::group_multiset_axioms;

    lemma_remove_temporary_contents(new.board, g.board, 225);
    vstd::seq_lib::lemma_multiset_commutative(g.cur_hand(), g.board.temp_contents());
    let tm = g.board.temp_contents().to_multiset();
    assert forall|t: Tile| #[trigger] new.hand_of(g.player_index as int).to_multiset().count(t) + board_contents(
        new.board,
    ).count(t) == g.cur_hand_tiles().count(t) + board_contents(g.board).count(t) by {
        assert(board_contents(new.board).add(tm).count(t) == board_contents(g.board).count(t));
        assert(new.hand_of(g.player_index as int).to_multiset() == g.cur_hand_tiles().add(tm));
    }
}

/// Taking back every temporary tile keeps the digits and operators.
pub proof fn lemma_pop_all_keeps_tiles(g: ActiveGame, new: ActiveGame)
    requires
        g.wf(),
        g.after_pop_all(&new),
    ensures
        same_tiles(all_tiles(new), all_tiles(g)),
{
    broadcast use vstd::multiset::group_multiset_axioms;

    if g.board.temp_contents().len() == 0 {
        assert(g.board.temp_contents() =~= Seq::<Tile>::empty());
        assert(g.cur_hand() + g.board.temp_contents() =~= g.cur_hand());
    }
    lemma_tiles_back_to_hand(g, new);
    lemma_same_tiles_from_moves(g, new);
}

/// Choosing a tile to exchange keeps the digits and operators.
pub proof fn lemma_select_keeps_tiles(g: ActiveGame, pos: int, new: ActiveGame)
    requires
        g.wf(),
        g.after_select(pos, &new),
    ensures
        same_tiles(all_tiles(new), all_tiles(g)),
{
    assert(in_move_tiles(new) == in_move_tiles(g));
    lemma_same_tiles_from_moves(g, new);
}

/// The tiles kept and those given back in an exchange are the tiles of
/// the hand, from position `i` on.
proof fn lemma_exchange_tiles(h: Seq<Tile>, sel: Seq<bool>, i: int)
    requires
        0 <= i,
        forall|j: int| 0 <= j < 10 && #[trigger] sel[j] ==> j < h.len(),
    ensures
        kept_from(h, sel, i).to_multiset().add(discarded_from(h, sel, i).to_multiset()) == if i < h.len() {
            h.subrange(i, h.len() as int).to_multiset()
        } else {
            Multiset::empty()
        },
    decreases (if h.len() > 10 { h.len() as int } else { 10 }) - i,
{
    broadcast use vstd::multiset::group_multiset_axioms, vstd::multiset::group_multiset_properties,
        vstd::seq_lib::group_to_multiset_ensures;

    if i < h.len() || i < 10 {
        lemma_exchange_tiles(h, sel, i + 1);
        if i < 10 && sel[i] {
            assert(i < h.len());
        }
        if i < h.len() {
            let rest = h.subrange(i + 1, h.len() as int);
            assert(h.subrange(i, h.len() as int) =~= seq![h[i]] + rest);
            vstd::seq_lib::lemma_multiset_commutative(seq![h[i]], rest);
            assert(seq![h[i]] =~= Seq::<Tile>::empty().push(h[i]));
            assert(Seq::<Tile>::empty().to_multiset() =~= Multiset::empty());
            if i < 10 && sel[i] {
                assert(kept_from(h, sel, i) == kept_from(h, sel, i + 1));
            } else {
                vstd::seq_lib::lemma_multiset_commutative(seq![h[i]], kept_from(h, sel, i + 1));
            }
            if i + 1 >= h.len() {
                assert(rest =~= Seq::<Tile>::empty());
            }
            assert(kept_from(h, sel, i).to_multiset().add(discarded_from(h, sel, i).to_multiset()) =~= h.subrange(
                i,
                h.len() as int,
            ).to_multiset());
        } else {
            assert(kept_from(h, sel, i) =~= Seq::<Tile>::empty());
            assert(discarded_from(h, sel, i) == discarded_from(h, sel, i + 1));
            assert(kept_from(h, sel, i + 1) =~= Seq::<Tile>::empty());
        }
    } else {
        assert(kept_from(h, sel, i) =~= Seq::<Tile>::empty());
        assert(discarded_from(h, sel, i) =~= Seq::<Tile>::empty());
        assert(Seq::<Tile>::empty().to_multiset() =~= Multiset::empty());
        assert(Multiset::<Tile>::empty().add(Multiset::empty()) =~= Multiset::empty());
    }
}

/// Refilling a hand from a bag keeps the digits and operators of the hand
/// and the bag together; only an equals sign may be added.
proof fn lemma_refill_tiles(h: Seq<Tile>, bag: Seq<Tile>)
    requires
        refill_fits(h),
    ensures
        forall|t: Tile|
            t != Tile::EqualsSign ==> #[trigger] refilled_hand(h, bag).to_multiset().count(t) + refilled_bag(h, bag).to_multiset().count(t)
                == h.to_multiset().count(t) + bag.to_multiset().count(t),
{
    broadcast use vstd::multiset::group_multiset_axioms, vstd::seq_lib::group_to_multiset_ensures;

    lemma_refilled_len(h, bag);
    let k = bag.len() - refill_count(h, bag);
    let part = bag.subrange(k, bag.len() as int);
    assert(bag =~= bag.take(k) + part);
    vstd::seq_lib::lemma_multiset_commutative(bag.take(k), part);
    assert(reversed(part) =~= part.reverse());
    part.lemma_reverse_to_multiset();
    vstd::seq_lib::lemma_multiset_commutative(with_equals(h), reversed(part));
    assert forall|t: Tile| t != Tile::EqualsSign implies #[trigger] with_equals(h).to_multiset().count(t) == h.to_multiset().count(t) by {
        if !has_equals(h) {
            assert(h.push(Tile::EqualsSign).to_multiset() == h.to_multiset().insert(Tile::EqualsSign));
        }
    }
}

/// Confirming a move keeps the digits and operators, when a move that
/// scores is not confirmed with a tile in move.
pub proof fn lemma_confirm_move_keeps_tiles(g: ActiveGame, new: ActiveGame)
    requires
        g.wf(),
        g.confirm_safe(),
        g.after_confirm_move(&new),
        g.board.spec_check_move() is Scored ==> g.in_move() is None,
    ensures
        same_tiles(all_tiles(new), all_tiles(g)),
{
    if g.board.spec_check_move() is Scored {
        lemma_refill_tiles(g.cur_hand(), g.tiles_in_bag@);
        assert forall|x: int, y: int| in_board(x, y) implies (#[trigger] new.board.occupied(x, y) <==> g.board.occupied(
            x,
            y,
        )) && (new.board.occupied(x, y) ==> new.board.cell(x, y).unwrap().content == g.board.cell(
            x,
            y,
        ).unwrap().content) by {
            assert(new.board.cell(x, y) == made_permanent(g.board.cell(x, y)));
        }
        lemma_same_contents(new.board, g.board, 225);
        lemma_same_tiles_from_moves(g, new);
    } else {
        lemma_same_tiles_from_moves(g, new);
    }
}

/// Passing the turn keeps the digits and operators, when no tile is in move.
pub proof fn lemma_pass_turn_keeps_tiles(g: ActiveGame, new: ActiveGame)
    requires
        g.wf(),
        g.after_pass_turn(&new),
        g.in_move() is None,
    ensures
        same_tiles(all_tiles(new), all_tiles(g)),
{
    lemma_tiles_back_to_hand(g, new);
    lemma_same_tiles_from_moves(g, new);
}

/// Starting an exchange keeps the digits and operators, when no tile is in
/// move.
pub proof fn lemma_init_reroll_keeps_tiles(g: ActiveGame, new: ActiveGame)
    requires
        g.wf(),
        g.after_init_reroll(&new),
        g.tiles_in_bag@.len() >= 9 ==> g.in_move() is None,
    ensures
        same_tiles(all_tiles(new), all_tiles(g)),
{
    if g.tiles_in_bag@.len() >= 9 {
        lemma_tiles_back_to_hand(g, new);
    }
    lemma_same_tiles_from_moves(g, new);
}

/// Going back to placing tiles keeps the digits and operators, when no tile
/// is in move.
pub proof fn lemma_cancel_reroll_keeps_tiles(g: ActiveGame, new: ActiveGame)
    requires
        g.wf(),
        g.after_cancel_reroll(&new),
        g.in_move() is None,
    ensures
        same_tiles(all_tiles(new), all_tiles(g)),
{
    lemma_same_tiles_from_moves(g, new);
}

/// Confirming an exchange keeps the digits and operators: the tiles given
/// back go into the bag.
pub proof fn lemma_confirm_reroll_keeps_tiles(g: ActiveGame, new: ActiveGame)
    requires
        g.wf(),
        g.reroll_safe(),
        g.after_confirm_reroll(&new),
    ensures
        same_tiles(all_tiles(new), all_tiles(g)),
{
    broadcast use vstd::multiset::group_multiset_axioms;

    let h = g.cur_hand();
    let sel = g.selected();
    if g.rerolling() && discarded(h, sel).len() > 0 {
        let k = kept_hand(h, sel);
        let d = discarded(h, sel);
        let bag = g.tiles_in_bag@;
        assert(k.to_multiset().add(d.to_multiset()) == h.to_multiset()) by {
            broadcast use vstd::seq_lib::group_to_multiset_ensures;

            lemma_exchange_tiles(h, sel, 0);
            if h.len() == 0 {
                assert(h.to_multiset().len() == 0);
                assert forall|v: Tile| h.to_multiset().count(v) == 0 by {
                    assert(h.to_multiset().count(v) <= h.to_multiset().len());
                }
                assert(h.to_multiset() =~= Multiset::empty());
            } else {
                assert(h.subrange(0, h.len() as int) =~= h);
            }
        }
        lemma_refill_tiles(k, bag);
        vstd::seq_lib::lemma_multiset_commutative(refilled_bag(k, bag), d);
        assert forall|t: Tile| t != Tile::EqualsSign implies #[trigger] new.hand_of(g.player_index as int).to_multiset().count(t)
            + new.tiles_in_bag@.to_multiset().count(t) == g.cur_hand_tiles().count(t) + bag.to_multiset().count(t) by {
            assert(k.to_multiset().add(d.to_multiset()).count(t) == h.to_multiset().count(t));
            assert(refilled_hand(k, bag).to_multiset().count(t) + refilled_bag(k, bag).to_multiset().count(t)
                == k.to_multiset().count(t) + bag.to_multiset().count(t));
        }
        lemma_same_tiles_from_moves(g, new);
    } else if g.rerolling() {
        lemma_same_tiles_from_moves(g, new);
    }
}

/// Pressing a button keeps the digits and operators, unless it drops the
/// tile in move.
pub proof fn lemma_button_keeps_tiles(g: ActiveGame, b: ControlButton, new: ActiveGame)
    requires
        g.wf(),
        g.button_safe(b),
        !(g.in_move() is Some && g.drops_tile_in_move(b)),
        g.after_button(b, &new),
    ensures
        same_tiles(all_tiles(new), all_tiles(g)),
{
    match b {
        ControlButton::ConfirmMove => lemma_confirm_move_keeps_tiles(g, new),
        ControlButton::RerollTtiles => lemma_init_reroll_keeps_tiles(g, new),
        ControlButton::PassTurn => lemma_pass_turn_keeps_tiles(g, new),
        ControlButton::ConfirmReroll => lemma_confirm_reroll_keeps_tiles(g, new),
        ControlButton::CancelReroll => lemma_cancel_reroll_keeps_tiles(g, new),
    }
}

/// Every press of a mouse button keeps the digits and operators of the
/// game, unless it presses a button that drops the tile in move.
pub proof fn lemma_mouse_down_keeps_tiles(g: ActiveGame, button: PointerButton, t: ClickTarget, new: ActiveGame)
    requires
        g.wf(),
        cell_valid(t.board_cell),
        g.effect_safe(g.down_effect(button, t)),
        g.down_effect(button, t) matches ClickEffect::Press(b) ==> !(g.in_move() is Some && g.drops_tile_in_move(b)),
        g.after_effect(g.down_effect(button, t), &new),
    ensures
        same_tiles(all_tiles(new), all_tiles(g)),
{
    match g.down_effect(button, t) {
        ClickEffect::ClosePopup => lemma_same_tiles_from_moves(g, new),
        ClickEffect::Nothing => {},
        ClickEffect::PickFromBoard(x, y) => lemma_pick_up_from_board_keeps_tiles(g, x as int, y as int, new),
        ClickEffect::PickFromHand(c) => lemma_pick_up_from_hand_keeps_tiles(g, c as int, new),
        ClickEffect::Select(c) => lemma_select_keeps_tiles(g, c as int, new),
        ClickEffect::Press(b) => lemma_button_keeps_tiles(g, b, new),
    }
}

/// Every release of a mouse button keeps the digits and operators.
pub proof fn lemma_mouse_up_keeps_tiles(g: ActiveGame, button: PointerButton, cell: Option<(usize, usize)>, new: ActiveGame)
    requires
        g.wf(),
        cell_valid(cell),
        g.after_mouse_up(button, cell, &new),
    ensures
        same_tiles(all_tiles(new), all_tiles(g)),
{
    match button {
        PointerButton::Other => {},
        PointerButton::Right => match cell {
            Some(p) => lemma_pop_tile_keeps_tiles(g, p.0 as int, p.1 as int, new),
            None => lemma_pop_all_keeps_tiles(g, new),
        },
        PointerButton::Left => if g.in_move() is Some {
            match cell {
                Some(p) => if g.board.cell(p.0 as int, p.1 as int) is None {
                    lemma_put_on_board_keeps_tiles(g, p.0 as int, p.1 as int, new)
                } else {
                    lemma_put_to_hand_keeps_tiles(g, new)
                },
                None => lemma_put_to_hand_keeps_tiles(g, new),
            }
        },
    }
}

/// An empty board holds no tiles.
proof fn lemma_empty_board_contents(b: Board, n: int)
    requires
        0 <= n <= 225,
        forall|x: int, y: int| in_board(x, y) ==> #[trigger] b.cell(x, y) is None,
    ensures
        board_contents_upto(b, n) == Seq::<Tile>::empty(),
    decreases n,
{
    if n > 0 {
        lemma_empty_board_contents(b, n - 1);
        let p = nth_position(n - 1);
        assert(in_board(p.0, p.1));
    }
}

/// The hands dealt to the first `m` players hold the digits and operators
/// of the last `9 * m` tiles of the shuffled bag.
proof fn lemma_dealt_hands(ps: Seq<Player>, s: Seq<Tile>, m: int)
    requires
        s.len() == 96,
        0 <= m <= ps.len() <= 10,
        forall|k: int| 0 <= k < ps.len() ==> #[trigger] ps[k].hand@ == dealt_hand(s, k),
    ensures
        forall|t: Tile|
            t != Tile::EqualsSign ==> #[trigger] hands_upto(ps, m).count(t) == s.subrange(96 - 9 * m, 96).to_multiset().count(t),
    decreases m,
{
    broadcast use vstd::multiset::group_multiset_axioms, vstd::seq_lib::group_to_multiset_ensures;

    if m == 0 {
        let e = s.subrange(96, 96);
        assert(e =~= Seq::<Tile>::empty());
        assert forall|t: Tile| t != Tile::EqualsSign implies #[trigger] hands_upto(ps, m).count(t) == e.to_multiset().count(
            t,
        ) by {
            assert(e.to_multiset().count(t) <= e.to_multiset().len());
        }
    } else {
        lemma_dealt_hands(ps, s, m - 1);
        let part = s.subrange(96 - 9 * m, 96 - 9 * (m - 1));
        let rest = s.subrange(96 - 9 * (m - 1), 96);
        assert(s.subrange(96 - 9 * m, 96) =~= part + rest);
        vstd::seq_lib::lemma_multiset_commutative(part, rest);
        assert(ps[m - 1].hand@ == part.push(Tile::EqualsSign));
        assert forall|t: Tile| t != Tile::EqualsSign implies #[trigger] hands_upto(ps, m).count(t) == s.subrange(
            96 - 9 * m,
            96,
        ).to_multiset().count(t) by {
            assert(hands_upto(ps, m) == hands_upto(ps, m - 1).add(ps[m - 1].hand@.to_multiset()));
            assert(ps[m - 1].hand@.to_multiset() == part.to_multiset().insert(Tile::EqualsSign));
            assert(hands_upto(ps, m - 1).count(t) == rest.to_multiset().count(t));
        }
    }
}

/// A new game holds the digits and operators of a fresh bag.
pub proof fn lemma_new_game_tiles(g: ActiveGame, s: Seq<Tile>)
    requires
        g.dealt_from(s),
        1 <= g.players@.len() <= 10,
        g.in_move() is None,
        forall|x: int, y: int| in_board(x, y) ==> #[trigger] g.board.cell(x, y) is None,
    ensures
        same_tiles(all_tiles(g), initial_bag().to_multiset()),
{
    broadcast use vstd::multiset::group_multiset_axioms, vstd::seq_lib::group_to_multiset_ensures;

    let n = g.players@.len() as int;
    assert forall|k: int| 0 <= k < n implies #[trigger] g.players@[k].hand@ == dealt_hand(s, k) by {
        assert(g.hand_of(k) == dealt_hand(s, k));
    }
    lemma_dealt_hands(g.players@, s, n);
    lemma_empty_board_contents(g.board, 225);
    assert(s =~= s.take(96 - 9 * n) + s.subrange(96 - 9 * n, 96));
    vstd::seq_lib::lemma_multiset_commutative(s.take(96 - 9 * n), s.subrange(96 - 9 * n, 96));
    assert forall|t: Tile| t != Tile::EqualsSign implies #[trigger] all_tiles(g).count(t) == initial_bag().to_multiset().count(
        t,
    ) by {
        assert(s.to_multiset() == initial_bag().to_multiset());
        assert(board_contents(g.board) =~= Multiset::empty());
    }
}

} // verus!
