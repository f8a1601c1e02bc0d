//! Attack geometry: the squares that a queen attacks, walked line by line.

use vstd::prelude::*;

use crate::position::{
    all_in_dims, in_dims, insert_sorted, is_sorted, CoordList, PosCoords,
};

verus! {

/// A queen on `p` attacks `q`: same column, same row, or same diagonal either way.
/// A queen attacks its own square.
pub open spec fn attacks(p: PosCoords, q: PosCoords) -> bool {
    ||| p.0 == q.0
    ||| p.1 == q.1
    ||| p.0 + p.1 == q.0 + q.1
    ||| p.0 - p.1 == q.0 - q.1
}

/// The squares of the board that a queen on `p` attacks, found square by square.
pub open spec fn attack_set(p: PosCoords, dims: PosCoords) -> Set<PosCoords> {
    Set::new(|q: PosCoords| in_dims(q, dims) && attacks(p, q))
}

/// The squares of the board that at least one of the queens attacks.
pub open spec fn contested_set(queens: Seq<PosCoords>, dims: PosCoords) -> Set<PosCoords> {
    Set::new(
        |q: PosCoords| in_dims(q, dims) && exists|i: int| 0 <= i < queens.len() && attacks(#[trigger] queens[i], q),
    )
}

/// The column through `pos`, bottom to top.
pub open spec fn vert_line(pos: PosCoords, dims: PosCoords) -> Seq<PosCoords> {
    Seq::new(dims.1 as nat, |y: int| (pos.0, y as u32))
}

/// The row through `pos`, left to right.
pub open spec fn horiz_line(pos: PosCoords, dims: PosCoords) -> Seq<PosCoords> {
    Seq::new(dims.0 as nat, |x: int| (x as u32, pos.1))
}

/// From `pos` up and to the left, to the edge of the board.
pub open spec fn nw_line(pos: PosCoords, dims: PosCoords) -> Seq<PosCoords> {
    Seq::new(
        vstd::math::min(pos.0 + 1, dims.1 - pos.1) as nat,
        |d: int| ((pos.0 - d) as u32, (pos.1 + d) as u32),
    )
}

/// From `pos` up and to the right, to the edge of the board.
pub open spec fn ne_line(pos: PosCoords, dims: PosCoords) -> Seq<PosCoords> {
    Seq::new(
        vstd::math::min(dims.0 - pos.0, dims.1 - pos.1) as nat,
        |d: int| ((pos.0 + d) as u32, (pos.1 + d) as u32),
    )
}

/// From `pos` down and to the left, to the edge of the board.
pub open spec fn sw_line(pos: PosCoords) -> Seq<PosCoords> {
    Seq::new(
        vstd::math::min(pos.0 + 1, pos.1 + 1) as nat,
        |d: int| ((pos.0 - d) as u32, (pos.1 - d) as u32),
    )
}

/// From `pos` down and to the right, to the edge of the board.
pub open spec fn se_line(pos: PosCoords, dims: PosCoords) -> Seq<PosCoords> {
    Seq::new(
        vstd::math::min(dims.0 - pos.0, pos.1 + 1) as nat,
        |d: int| ((pos.0 + d) as u32, (pos.1 - d) as u32),
    )
}

/// The six line walks from `pos`, one after another.
pub open spec fn all_lines(pos: PosCoords, dims: PosCoords) -> Seq<PosCoords> {
    vert_line(pos, dims) + horiz_line(pos, dims) + nw_line(pos, dims) + ne_line(pos, dims)
        + sw_line(pos) + se_line(pos, dims)
}

/// The squares that the six line walks from `pos` reach are exactly the squares that a queen
/// on `pos` attacks: its row, its column and both diagonals, clipped to the board.
pub proof fn lemma_lines_cover_attack_set(pos: PosCoords, dims: PosCoords)
    requires
        in_dims(pos, dims),
    ensures
        all_lines(pos, dims).to_set() == attack_set(pos, dims),
{
    let s = all_lines(pos, dims);
    let v = vert_line(pos, dims);
    let h = horiz_line(pos, dims);
    let nw = nw_line(pos, dims);
    let ne = ne_line(pos, dims);
    let sw = sw_line(pos);
    let se = se_line(pos, dims);
    assert forall|q: PosCoords| s.contains(q) implies attack_set(pos, dims).contains(q) by {
        let k = choose|k: int| 0 <= k < s.len() && s[k] == q;
        let a = v.len() as int;
        let b = a + h.len();
        let c = b + nw.len();
        let d = c + ne.len();
        let e = d + sw.len();
        if k < a {
            assert(q == v[k]);
        } else if k < b {
            assert(q == h[k - a]);
        } else if k < c {
            assert(q == nw[k - b]);
        } else if k < d {
            assert(q == ne[k - c]);
        } else if k < e {
            assert(q == sw[k - d]);
        } else {
            assert(q == se[k - e]);
        }
    }
    assert forall|q: PosCoords| attack_set(pos, dims).contains(q) implies s.contains(q) by {
        let a = v.len() as int;
        let b = a + h.len();
        let c = b + nw.len();
        let d = c + ne.len();
        let e = d + sw.len();
        if q.0 == pos.0 {
            assert(s[q.1 as int] == q);
        } else if q.1 == pos.1 {
            assert(s[a + q.0] == q);
        } else if q.0 + q.1 == pos.0 + pos.1 && q.0 <= pos.0 {
            let dd = pos.0 - q.0;
            assert(s[b + dd] == q);
        } else if q.0 + q.1 == pos.0 + pos.1 {
            let dd = q.0 - pos.0;
            assert(s[e + dd] == q);
        } else if q.0 >= pos.0 {
            let dd = q.0 - pos.0;
            assert(s[c + dd] == q);
        } else {
            let dd = pos.0 - q.0;
            assert(s[d + dd] == q);
        }
    }
    assert(s.to_set() =~= attack_set(pos, dims));
}

/// Whether a queen on `p` attacks the square `q`.
pub fn queen_attacks(p: PosCoords, q: PosCoords) -> (r: bool)
    ensures
        r == attacks(p, q),
{
    p.0 == q.0 || p.1 == q.1 || p.0 as u64 + p.1 as u64 == q.0 as u64 + q.1 as u64 || p.0 as u64
        + q.1 as u64 == q.0 as u64 + p.1 as u64
}

/// The squares that the queens at `queens` contest, sorted and without repeats.
pub fn get_contested_spaces(queens: Vec<PosCoords>, dims: PosCoords) -> (r: CoordList)
    requires
        all_in_dims(queens@, dims),
    ensures
        is_sorted(r@),
        r@.to_set() == contested_set(queens@, dims),
{
    let move_sets = get_queen_move_sets(queens, dims);
    let mut coords: Vec<PosCoords> = Vec::new();
    let mut i: usize = 0;
    while i < move_sets.len()
        invariant
            0 <= i <= move_sets.len(),
            move_sets.len() == queens.len(),
            forall|k: int|
                0 <= k < move_sets.len() ==> (#[trigger] move_sets[k])@.to_set() == attack_set(
                    queens@[k],
                    dims,
                ),
            is_sorted(coords@),
            coords@.to_set() == Set::new(
                |q: PosCoords|
                    in_dims(q, dims) && exists|m: int| 0 <= m < i && attacks(#[trigger] queens@[m], q),
            ),
        decreases move_sets.len() - i,
    {
        let moves = &move_sets[i];
        let ghost before = coords@.to_set();
        let mut j: usize = 0;
        while j < moves.len()
            invariant
                0 <= j <= moves.len(),
                is_sorted(coords@),
                coords@.to_set() == before + moves@.subrange(0, j as int).to_set(),
            decreases moves.len() - j,
        {
            let ghost pre = coords@.to_set();
            insert_sorted(&mut coords, moves[j]);
            proof {
                assert(moves@.subrange(0, j + 1) =~= moves@.subrange(0, j as int).push(moves@[j as int]));
                moves@.subrange(0, j as int).lemma_push_to_set_commute(moves@[j as int]);
                assert(coords@.to_set() =~= before + moves@.subrange(0, j + 1).to_set());
            }
            j = j + 1;
        }
        proof {
            assert(moves@.subrange(0, moves.len() as int) =~= moves@);
            assert(coords@.to_set() =~= Set::new(
                |q: PosCoords|
                    in_dims(q, dims) && exists|m: int| 0 <= m < i + 1 && attacks(#[trigger] queens@[m], q),
            )) by {
                assert forall|q: PosCoords| #[trigger] coords@.to_set().contains(q) <==> (in_dims(q, dims)
                    && exists|m: int| 0 <= m < i + 1 && attacks(#[trigger] queens@[m], q)) by {
                    if coords@.to_set().contains(q) && !before.contains(q) {
                        assert(move_sets[i as int]@.to_set().contains(q));
                        assert(attacks(queens@[i as int], q));
                    }
                    if in_dims(q, dims) && attacks(queens@[i as int], q) {
                        assert(attack_set(queens@[i as int], dims).contains(q));
                    }
                    if in_dims(q, dims) && exists|m: int| 0 <= m < i + 1 && attacks(#[trigger] queens@[m], q) {
                        let m = choose|m: int| 0 <= m < i + 1 && attacks(#[trigger] queens@[m], q);
                        if m == i {
                            assert(attack_set(queens@[i as int], dims).contains(q));
                        }
                    }
                }
            }
        }
        i = i + 1;
    }
    assert(coords@.to_set() =~= contested_set(queens@, dims));
    coords
}

/// The moves of each queen, in the order of `queens`.
pub fn get_queen_move_sets(queens: Vec<PosCoords>, dims: PosCoords) -> (r: Vec<CoordList>)
    requires
        all_in_dims(queens@, dims),
    ensures
        r.len() == queens.len(),
        forall|k: int|
            0 <= k < r.len() ==> is_sorted((#[trigger] r[k])@) && r[k]@.to_set() == attack_set(
                queens@[k],
                dims,
            ),
{
    let mut r: Vec<CoordList> = Vec::new();
    let mut i: usize = 0;
    while i < queens.len()
        invariant
            0 <= i <= queens.len(),
            all_in_dims(queens@, dims),
            r.len() == i,
            forall|k: int|
                0 <= k < r.len() ==> is_sorted((#[trigger] r[k])@) && r[k]@.to_set() == attack_set(
                    queens@[k],
                    dims,
                ),
        decreases queens.len() - i,
    {
        r.push(get_queen_moves(queens[i], dims));
        i = i + 1;
    }
    r
}

/// The squares that a queen on `pos` attacks, its own square included, sorted.
pub fn get_queen_moves(pos: PosCoords, dims: PosCoords) -> (r: CoordList)
    requires
        in_dims(pos, dims),
    ensures
        is_sorted(r@),
        r@.to_set() == attack_set(pos, dims),
{
    let mut moves: Vec<PosCoords> = Vec::new();
    let mut walks: Vec<Vec<PosCoords>> = Vec::new();
    walks.push(get_vert_moves(pos, dims));
    walks.push(get_horiz_moves(pos, dims));
    walks.push(get_nw_moves(pos, dims));
    walks.push(get_ne_moves(pos, dims));
    walks.push(get_sw_moves(pos, dims));
    walks.push(get_se_moves(pos, dims));
    let ghost lines = seq![
        vert_line(pos, dims),
        horiz_line(pos, dims),
        nw_line(pos, dims),
        ne_line(pos, dims),
        sw_line(pos),
        se_line(pos, dims),
    ];
    let mut w: usize = 0;
    while w < walks.len()
        invariant
            0 <= w <= walks.len(),
            walks.len() == 6,
            forall|k: int| 0 <= k < 6 ==> (#[trigger] walks[k])@ == lines[k],
            is_sorted(moves@),
            moves@.to_set() == Set::new(
                |q: PosCoords| exists|k: int| 0 <= k < w && (#[trigger] lines[k]).contains(q),
            ),
        decreases walks.len() - w,
    {
        let walk = &walks[w];
        let ghost before = moves@.to_set();
        let mut j: usize = 0;
        while j < walk.len()
            invariant
                0 <= j <= walk.len(),
                is_sorted(moves@),
                moves@.to_set() == before + walk@.subrange(0, j as int).to_set(),
            decreases walk.len() - j,
        {
            insert_sorted(&mut moves, walk[j]);
            proof {
                assert(walk@.subrange(0, j + 1) =~= walk@.subrange(0, j as int).push(walk@[j as int]));
                walk@.subrange(0, j as int).lemma_push_to_set_commute(walk@[j as int]);
                assert(moves@.to_set() =~= before + walk@.subrange(0, j + 1).to_set());
            }
            j = j + 1;
        }
        proof {
            assert(walk@.subrange(0, walk.len() as int) =~= walk@);
            assert(moves@.to_set() =~= Set::new(
                |q: PosCoords| exists|k: int| 0 <= k < w + 1 && (#[trigger] lines[k]).contains(q),
            )) by {
                assert forall|q: PosCoords| #[trigger] moves@.to_set().contains(q) <==> exists|k: int|
                    0 <= k < w + 1 && (#[trigger] lines[k]).contains(q) by {
                    if moves@.to_set().contains(q) && !before.contains(q) {
                        assert(lines[w as int].contains(q));
                    }
                }
            }
        }
        w = w + 1;
    }
    proof {
        lemma_lines_cover_attack_set(pos, dims);
        let all = all_lines(pos, dims);
        assert(moves@.to_set() =~= all.to_set()) by {
            let a = lines[0].len() as int;
            let b = a + lines[1].len();
            let c = b + lines[2].len();
            let d = c + lines[3].len();
            let e = d + lines[4].len();
            assert forall|q: PosCoords| #[trigger] all.contains(q) implies moves@.to_set().contains(q) by {
                let k = choose|k: int| 0 <= k < all.len() && all[k] == q;
                if k < a {
                    assert(lines[0][k] == q);
                    assert(lines[0].contains(q));
                } else if k < b {
                    assert(lines[1][k - a] == q);
                    assert(lines[1].contains(q));
                } else if k < c {
                    assert(lines[2][k - b] == q);
                    assert(lines[2].contains(q));
                } else if k < d {
                    assert(lines[3][k - c] == q);
                    assert(lines[3].contains(q));
                } else if k < e {
                    assert(lines[4][k - d] == q);
                    assert(lines[4].contains(q));
                } else {
                    assert(lines[5][k - e] == q);
                    assert(lines[5].contains(q));
                }
            }
            assert forall|q: PosCoords| moves@.to_set().contains(q) implies #[trigger] all.contains(q) by {
                let k = choose|k: int| 0 <= k < 6 && (#[trigger] lines[k]).contains(q);
                let m = choose|m: int| 0 <= m < lines[k].len() && lines[k][m] == q;
                if k == 0 {
                    assert(all[m] == q);
                } else if k == 1 {
                    assert(all[a + m] == q);
                } else if k == 2 {
                    assert(all[b + m] == q);
                } else if k == 3 {
                    assert(all[c + m] == q);
                } else if k == 4 {
                    assert(all[d + m] == q);
                } else {
                    assert(all[e + m] == q);
                }
            }
        }
    }
    moves
}

/// The squares of the column through `pos`, bottom to top.
pub fn get_vert_moves(pos: PosCoords, dims: PosCoords) -> (r: Vec<PosCoords>)
    ensures
        r@ == vert_line(pos, dims),
{
    let mut r: Vec<PosCoords> = Vec::new();
    let mut y: u32 = 0;
    while y < dims.1
        invariant
            y <= dims.1,
            r@ == vert_line(pos, (dims.0, y)),
        decreases dims.1 - y,
    {
        r.push((pos.0, y));
        y = y + 1;
        assert(r@ =~= vert_line(pos, (dims.0, y)));
    }
    r
}

/// The squares of the row through `pos`, left to right.
pub fn get_horiz_moves(pos: PosCoords, dims: PosCoords) -> (r: Vec<PosCoords>)
    ensures
        r@ == horiz_line(pos, dims),
{
    let mut r: Vec<PosCoords> = Vec::new();
    let mut x: u32 = 0;
    while x < dims.0
        invariant
            x <= dims.0,
            r@ == horiz_line(pos, (x, dims.1)),
        decreases dims.0 - x,
    {
        r.push((x, pos.1));
        x = x + 1;
        assert(r@ =~= horiz_line(pos, (x, dims.1)));
    }
    r
}

/// The squares from `pos` up and to the left. The distance to the edge is taken as a
/// minimum before anything is subtracted, so nothing underflows.
pub fn get_nw_moves(pos: PosCoords, dims: PosCoords) -> (r: Vec<PosCoords>)
    requires
        in_dims(pos, dims),
    ensures
        r@ == nw_line(pos, dims),
{
    let dis_to_edge = if pos.0 + 1 < dims.1 - pos.1 {
        pos.0 + 1
    } else {
        dims.1 - pos.1
    };
    let mut r: Vec<PosCoords> = Vec::new();
    let mut d: u32 = 0;
    while d < dis_to_edge
        invariant
            d <= dis_to_edge,
            dis_to_edge == vstd::math::min(pos.0 + 1, dims.1 - pos.1),
            r@ == nw_line(pos, dims).subrange(0, d as int),
        decreases dis_to_edge - d,
    {
        r.push((pos.0 - d, pos.1 + d));
        d = d + 1;
        assert(r@ =~= nw_line(pos, dims).subrange(0, d as int));
    }
    assert(nw_line(pos, dims).subrange(0, d as int) =~= nw_line(pos, dims));
    r
}

/// The squares from `pos` up and to the right.
pub fn get_ne_moves(pos: PosCoords, dims: PosCoords) -> (r: Vec<PosCoords>)
    requires
        in_dims(pos, dims),
    ensures
        r@ == ne_line(pos, dims),
{
    let dis_to_edge = if dims.0 - pos.0 < dims.1 - pos.1 {
        dims.0 - pos.0
    } else {
        dims.1 - pos.1
    };
    let mut r: Vec<PosCoords> = Vec::new();
    let mut d: u32 = 0;
    while d < dis_to_edge
        invariant
            d <= dis_to_edge,
            dis_to_edge == vstd::math::min(dims.0 - pos.0, dims.1 - pos.1),
            r@ == ne_line(pos, dims).subrange(0, d as int),
        decreases dis_to_edge - d,
    {
        r.push((pos.0 + d, pos.1 + d));
        d = d + 1;
        assert(r@ =~= ne_line(pos, dims).subrange(0, d as int));
    }
    assert(ne_line(pos, dims).subrange(0, d as int) =~= ne_line(pos, dims));
    r
}

/// The squares from `pos` down and to the left.
pub fn get_sw_moves(pos: PosCoords, dims: PosCoords) -> (r: Vec<PosCoords>)
    requires
        in_dims(pos, dims),
    ensures
        r@ == sw_line(pos),
{
    let dis_to_edge = if pos.0 < pos.1 {
        pos.0 + 1
    } else {
        pos.1 + 1
    };
    let mut r: Vec<PosCoords> = Vec::new();
    let mut d: u32 = 0;
    while d < dis_to_edge
        invariant
            d <= dis_to_edge,
            dis_to_edge == vstd::math::min(pos.0 + 1, pos.1 + 1),
            r@ == sw_line(pos).subrange(0, d as int),
        decreases dis_to_edge - d,
    {
        r.push((pos.0 - d, pos.1 - d));
        d = d + 1;
        assert(r@ =~= sw_line(pos).subrange(0, d as int));
    }
    assert(sw_line(pos).subrange(0, d as int) =~= sw_line(pos));
    r
}

/// The squares from `pos` down and to the right.
pub fn get_se_moves(pos: PosCoords, dims: PosCoords) -> (r: Vec<PosCoords>)
    requires
        in_dims(pos, dims),
    ensures
        r@ == se_line(pos, dims),
{
    let dis_to_edge = if dims.0 - pos.0 < pos.1 + 1 {
        dims.0 - pos.0
    } else {
        pos.1 + 1
    };
    let mut r: Vec<PosCoords> = Vec::new();
    let mut d: u32 = 0;
    while d < dis_to_edge
        invariant
            d <= dis_to_edge,
            dis_to_edge == vstd::math::min(dims.0 - pos.0, pos.1 + 1),
            r@ == se_line(pos, dims).subrange(0, d as int),
        decreases dis_to_edge - d,
    {
        r.push((pos.0 + d, pos.1 - d));
        d = d + 1;
        assert(r@ =~= se_line(pos, dims).subrange(0, d as int));
    }
    assert(se_line(pos, dims).subrange(0, d as int) =~= se_line(pos, dims));
    r
}

} // verus!
