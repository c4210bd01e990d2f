//! The board: stone occupancy over the 19x19 grid, group discovery,
//! liberty computation, and the `put` operation that resolves captures
//! and rejects suicidal placements.

use vstd::prelude::*;

verus! {

broadcast use vstd::seq_lib::lemma_seq_contains_after_push;

/// Width and height of the grid.
pub const SIZE: usize = 19;
/// Number of cells on the grid.
pub const CELLS: usize = 361;

/// The colour of a placed stone.
#[derive(PartialEq, Eq, Structural, Copy, Clone, Debug, Hash)]
pub enum Stone {
    Black,
    White,
}

/// The opposing colour: Black and White exchange.
pub open spec fn opp(s: Stone) -> Stone {
    match s {
        Stone::Black => Stone::White,
        Stone::White => Stone::Black,
    }
}

impl Stone {
    /// The opposing colour.
    pub fn opposite(self) -> (r: Stone)
        ensures
            r == opp(self),
    {
        match self {
            Stone::Black => Stone::White,
            Stone::White => Stone::Black,
        }
    }
}

/// A 2-D grid coordinate; valid when both components lie in [0, 19).
#[derive(PartialEq, Eq, Structural, Copy, Clone, Debug, Hash)]
pub struct Position {
    pub x: usize,
    pub y: usize,
}

/// Both coordinates lie on the grid.
pub open spec fn valid_pos(p: Position) -> bool {
    p.x < SIZE && p.y < SIZE
}

/// Row-major index of a position into the flat cell sequence.
pub open spec fn idx_of(p: Position) -> int {
    p.y * SIZE + p.x
}

/// The position whose row-major index is `i`.
pub open spec fn pos_at(i: int) -> Position {
    Position { x: (i % (SIZE as int)) as usize, y: (i / (SIZE as int)) as usize }
}

/// `p` and `q` are orthogonally adjacent (Manhattan distance one).
pub open spec fn adjacent(p: Position, q: Position) -> bool {
    ||| p.x == q.x && (p.y + 1 == q.y || q.y + 1 == p.y)
    ||| p.y == q.y && (p.x + 1 == q.x || q.x + 1 == p.x)
}

/// Occupancy of the cell at `p` in the flat cell sequence `v`.
pub open spec fn cell(v: Seq<Option<Stone>>, p: Position) -> Option<Stone> {
    v[idx_of(p)]
}

/// Occupancy at `p`, or `None` for an off-grid position.
pub open spec fn get_spec(v: Seq<Option<Stone>>, p: Position) -> Option<Stone> {
    if valid_pos(p) {
        cell(v, p)
    } else {
        None
    }
}

/// The all-empty grid.
pub open spec fn empty_view() -> Seq<Option<Stone>> {
    Seq::new(CELLS as nat, |i: int| None)
}

/// For a valid position, the row-major index round-trips.
pub proof fn lemma_pos_at_idx(p: Position)
    requires
        valid_pos(p),
    ensures
        0 <= idx_of(p) < CELLS,
        pos_at(idx_of(p)) == p,
{
    let i = idx_of(p);
    assert(i == p.y * 19 + p.x);
    assert(0 <= i < 361) by (nonlinear_arith)
        requires
            i == p.y * 19 + p.x && p.x < 19 && p.y < 19,
    ;
    assert(i % 19 == p.x && i / 19 == p.y) by (nonlinear_arith)
        requires
            i == p.y * 19 + p.x && p.x < 19 && p.y < 19,
    ;
}

/// Every in-range index is the row-major index of a valid position.
pub proof fn lemma_idx_pos_at(i: int)
    requires
        0 <= i < CELLS,
    ensures
        valid_pos(pos_at(i)),
        idx_of(pos_at(i)) == i,
{
    assert(0 <= i % 19 < 19 && 0 <= i / 19 < 19 && (i / 19) * 19 + i % 19 == i)
        by (nonlinear_arith)
        requires
            0 <= i < 361,
    ;
}

/// `q` is reachable from `p` within `n` steps of orthogonal adjacency,
/// passing only through valid cells whose occupancy is `c`.
pub open spec fn linked(
    v: Seq<Option<Stone>>,
    c: Option<Stone>,
    p: Position,
    q: Position,
    n: nat,
) -> bool
    decreases n,
{
    if p == q {
        valid_pos(p) && cell(v, p) == c
    } else if n == 0 {
        false
    } else {
        exists|r: Position|
            linked(v, c, p, r, (n - 1) as nat) && adjacent(r, q) && valid_pos(q) && cell(v, q)
                == c
    }
}

/// `q` belongs to the maximal connected component of same-occupancy
/// cells that contains `p` (the empty occupancy connects as well).
pub open spec fn in_group(v: Seq<Option<Stone>>, p: Position, q: Position) -> bool {
    exists|n: nat| linked(v, cell(v, p), p, q, n)
}

/// Some member of the component of `p` has an empty orthogonal
/// neighbour.
pub open spec fn group_has_liberty(v: Seq<Option<Stone>>, p: Position) -> bool {
    exists|a: Position, b: Position|
        in_group(v, p, a) && adjacent(a, b) && valid_pos(b) && cell(v, b) is None
}

/// Every cell reachable through same-occupancy adjacency is itself a
/// valid cell of that occupancy, and so are the endpoints.
pub proof fn lemma_linked_props(
    v: Seq<Option<Stone>>,
    c: Option<Stone>,
    p: Position,
    q: Position,
    n: nat,
)
    requires
        linked(v, c, p, q, n),
    ensures
        valid_pos(p),
        cell(v, p) == c,
        valid_pos(q),
        cell(v, q) == c,
    decreases n,
{
    if p == q {
    } else {
        let r = choose|r: Position|
            linked(v, c, p, r, (n - 1) as nat) && adjacent(r, q) && valid_pos(q) && cell(v, q)
                == c;
        lemma_linked_props(v, c, p, r, (n - 1) as nat);
    }
}

/// Every member of a component is a valid cell with the occupancy of
/// the component's seed.
pub proof fn lemma_group_member(v: Seq<Option<Stone>>, p: Position, q: Position)
    requires
        in_group(v, p, q),
    ensures
        valid_pos(p),
        valid_pos(q),
        cell(v, q) == cell(v, p),
{
    let n = choose|n: nat| linked(v, cell(v, p), p, q, n);
    lemma_linked_props(v, cell(v, p), p, q, n);
}

/// A valid position belongs to its own component.
pub proof fn lemma_group_self(v: Seq<Option<Stone>>, p: Position)
    requires
        valid_pos(p),
    ensures
        in_group(v, p, p),
{
    assert(linked(v, cell(v, p), p, p, 0));
}

/// A component absorbs every valid same-occupancy neighbour of a
/// member.
pub proof fn lemma_group_step(v: Seq<Option<Stone>>, p: Position, q: Position, r: Position)
    requires
        in_group(v, p, q),
        adjacent(q, r),
        valid_pos(r),
        cell(v, r) == cell(v, p),
    ensures
        in_group(v, p, r),
{
    let n = choose|n: nat| linked(v, cell(v, p), p, q, n);
    if r == p {
        assert(linked(v, cell(v, p), p, r, 0)) by {
            lemma_linked_props(v, cell(v, p), p, q, n);
        }
    } else {
        assert(linked(v, cell(v, p), p, r, n + 1));
    }
}

/// Membership in a component is symmetric-transitive in the sense that
/// any set that contains `p` and is closed under stepping to valid
/// same-occupancy neighbours contains the whole component of `p`.
pub proof fn lemma_linked_in_closed(
    v: Seq<Option<Stone>>,
    c: Option<Stone>,
    p: Position,
    q: Position,
    n: nat,
    t: spec_fn(Position) -> bool,
)
    requires
        linked(v, c, p, q, n),
        t(p),
        forall|a: Position, b: Position|
            #![trigger t(a), t(b)]
            t(a) && adjacent(a, b) && valid_pos(b) && cell(v, b) == c ==> t(b),
    ensures
        t(q),
    decreases n,
{
    if p == q {
    } else {
        let r = choose|r: Position|
            linked(v, c, p, r, (n - 1) as nat) && adjacent(r, q) && valid_pos(q) && cell(v, q)
                == c;
        lemma_linked_in_closed(v, c, p, r, (n - 1) as nat, t);
    }
}

/// A turn: either a stone placement at a position, or a pass.
#[derive(PartialEq, Eq, Structural, Copy, Clone, Debug, Hash)]
pub enum Move {
    Placement(Position),
    Pass,
}

/// The reasons a move is rejected; the only error the engine produces.
#[derive(PartialEq, Eq, Structural, Copy, Clone, Debug, Hash)]
pub enum IllegalMove {
    OutsideBoard,
    Occupied,
    Suicidal,
    Ko,
}

/// After `st` is placed, the opposing stone at `n` sits in a group with
/// no liberty left; that whole group is captured.
pub open spec fn capturing_neighbour(v1: Seq<Option<Stone>>, st: Stone, n: Position) -> bool {
    cell(v1, n) == Some(opp(st)) && !group_has_liberty(v1, n)
}

/// On the board `v1` that already holds the new stone of colour `st` at
/// `pos`, the stone at `q` is removed by the placement: it belongs to an
/// opposing group adjacent to `pos` whose last liberty was just taken.
pub open spec fn is_captured(
    v1: Seq<Option<Stone>>,
    pos: Position,
    st: Stone,
    q: Position,
) -> bool {
    exists|n: Position|
        #![auto]
        valid_pos(n) && adjacent(pos, n) && capturing_neighbour(v1, st, n) && in_group(v1, n, q)
}

/// The grid after `st` is placed at `pos` and captures are resolved
/// (suicide not yet considered).
pub open spec fn after_put(v: Seq<Option<Stone>>, pos: Position, st: Stone) -> Seq<
    Option<Stone>,
> {
    let v1 = v.update(idx_of(pos), Some(st));
    Seq::new(
        v1.len(),
        |i: int|
            if is_captured(v1, pos, st, pos_at(i)) {
                None
            } else {
                v1[i]
            },
    )
}

/// What `Board::put` returns: the exact new grid on success, the exact
/// rejection otherwise.  Captures are resolved before the suicide check,
/// so a placement that first empties an opposing group is legal.
pub open spec fn put_spec(v: Seq<Option<Stone>>, pos: Position, st: Stone) -> Result<
    Seq<Option<Stone>>,
    IllegalMove,
> {
    if !valid_pos(pos) {
        Result::Err(IllegalMove::OutsideBoard)
    } else if cell(v, pos) is Some {
        Result::Err(IllegalMove::Occupied)
    } else {
        let v2 = after_put(v, pos, st);
        if group_has_liberty(v2, pos) {
            Result::Ok(v2)
        } else {
            Result::Err(IllegalMove::Suicidal)
        }
    }
}

/// An off-grid placement is rejected as `OutsideBoard`, whatever the
/// grid holds.
pub proof fn lemma_put_outside_board(v: Seq<Option<Stone>>, pos: Position, st: Stone)
    requires
        !valid_pos(pos),
    ensures
        put_spec(v, pos, st) == Result::<Seq<Option<Stone>>, IllegalMove>::Err(
            IllegalMove::OutsideBoard,
        ),
{
}

/// A placement on an occupied cell is rejected as `Occupied`, whatever
/// the grid holds elsewhere.
pub proof fn lemma_put_occupied(v: Seq<Option<Stone>>, pos: Position, st: Stone)
    requires
        valid_pos(pos),
        cell(v, pos) is Some,
    ensures
        put_spec(v, pos, st) == Result::<Seq<Option<Stone>>, IllegalMove>::Err(
            IllegalMove::Occupied,
        ),
{
}

/// A lone stone placed where every orthogonal neighbour holds an
/// opposing stone, each of whose groups keeps a liberty even after the
/// placement (so nothing is captured), is rejected as `Suicidal`.
pub proof fn lemma_put_suicidal_surrounded(v: Seq<Option<Stone>>, pos: Position, st: Stone)
    requires
        v.len() == CELLS,
        valid_pos(pos),
        cell(v, pos) is None,
        forall|q: Position| adjacent(pos, q) && valid_pos(q) ==> cell(v, q) == Some(opp(st)),
        forall|q: Position|
            adjacent(pos, q) && valid_pos(q) ==> group_has_liberty(
                v.update(idx_of(pos), Some(st)),
                q,
            ),
    ensures
        put_spec(v, pos, st) == Result::<Seq<Option<Stone>>, IllegalMove>::Err(
            IllegalMove::Suicidal,
        ),
{
    let v1 = v.update(idx_of(pos), Some(st));
    lemma_pos_at_idx(pos);
    assert forall|q: Position| valid_pos(q) && q != pos implies cell(v1, q) == cell(v, q) by {
        lemma_pos_at_idx(q);
        if idx_of(q) == idx_of(pos) {
            assert(q == pos_at(idx_of(pos)));
        }
    }
    // nothing is captured: every adjacent opposing group keeps a liberty
    assert forall|q: Position| !is_captured(v1, pos, st, q) by {
        if is_captured(v1, pos, st, q) {
            let n = choose|n: Position|
                #![auto]
                valid_pos(n) && adjacent(pos, n) && capturing_neighbour(v1, st, n) && in_group(
                    v1,
                    n,
                    q,
                );
            assert(group_has_liberty(v1, n));
        }
    }
    let v2 = after_put(v, pos, st);
    assert(v2 =~= v1);
    // the placed stone's own group is the lone stone itself
    assert forall|a: Position| in_group(v1, pos, a) implies a == pos by {
        let t = |x: Position| x == pos;
        let nn = choose|nn: nat| linked(v1, cell(v1, pos), pos, a, nn);
        assert forall|x: Position, y: Position|
            #![trigger t(x), t(y)]
            t(x) && adjacent(x, y) && valid_pos(y) && cell(v1, y) == cell(v1, pos) implies t(
            y,
        ) by {
            assert(cell(v1, y) == cell(v, y));
        }
        lemma_linked_in_closed(v1, cell(v1, pos), pos, a, nn, t);
    }
    // and it has no liberty: every neighbour of `pos` is occupied
    assert(!group_has_liberty(v2, pos)) by {
        if group_has_liberty(v2, pos) {
            let (a, b) = choose|a: Position, b: Position|
                in_group(v2, pos, a) && adjacent(a, b) && valid_pos(b) && cell(v2, b) is None;
            assert(a == pos);
            assert(cell(v1, b) == cell(v, b));
        }
    }
}

/// A placement that takes the last liberty of an adjacent opposing
/// group captures every stone of that group, and the placement itself
/// succeeds even where, absent the capture, it would have been
/// suicidal: the emptied neighbouring cell becomes a liberty of the
/// placed stone.
pub proof fn lemma_put_captures(v: Seq<Option<Stone>>, pos: Position, st: Stone, n: Position)
    requires
        v.len() == CELLS,
        valid_pos(pos),
        cell(v, pos) is None,
        valid_pos(n),
        adjacent(pos, n),
        cell(v.update(idx_of(pos), Some(st)), n) == Some(opp(st)),
        !group_has_liberty(v.update(idx_of(pos), Some(st)), n),
    ensures
        put_spec(v, pos, st) is Ok,
        forall|q: Position|
            in_group(v.update(idx_of(pos), Some(st)), n, q) ==> cell(
                put_spec(v, pos, st)->Ok_0,
                q,
            ) is None,
{
    let v1 = v.update(idx_of(pos), Some(st));
    let v2 = after_put(v, pos, st);
    lemma_pos_at_idx(pos);
    assert(capturing_neighbour(v1, st, n));
    assert forall|q: Position| in_group(v1, n, q) implies cell(v2, q) is None by {
        lemma_group_member(v1, n, q);
        lemma_pos_at_idx(q);
        assert(is_captured(v1, pos, st, q));
        assert(v2[idx_of(q)] is None);
    }
    // the emptied cell at `n` is a liberty of the placed stone
    lemma_group_self(v1, n);
    assert(cell(v2, n) is None);
    lemma_group_self(v2, pos);
    assert(group_has_liberty(v2, pos));
}

/// Number of `true` entries in a boolean sequence.
pub open spec fn count_trues(s: Seq<bool>) -> int
    decreases s.len(),
{
    if s.len() == 0 {
        0
    } else {
        count_trues(s.drop_last()) + if s.last() {
            1int
        } else {
            0int
        }
    }
}

proof fn lemma_count_trues_bounds(s: Seq<bool>)
    ensures
        0 <= count_trues(s) <= s.len(),
    decreases s.len(),
{
    if s.len() > 0 {
        lemma_count_trues_bounds(s.drop_last());
    }
}

proof fn lemma_count_trues_zero(s: Seq<bool>)
    requires
        forall|i: int| 0 <= i < s.len() ==> !s[i],
    ensures
        count_trues(s) == 0,
    decreases s.len(),
{
    if s.len() > 0 {
        lemma_count_trues_zero(s.drop_last());
    }
}

proof fn lemma_count_trues_update(s: Seq<bool>, i: int)
    requires
        0 <= i < s.len(),
        !s[i],
    ensures
        count_trues(s.update(i, true)) == count_trues(s) + 1,
    decreases s.len(),
{
    let su = s.update(i, true);
    if i == s.len() - 1 {
        assert(su.drop_last() =~= s.drop_last());
    } else {
        assert(su.drop_last() =~= s.drop_last().update(i, true));
        lemma_count_trues_update(s.drop_last(), i);
    }
}

proof fn lemma_push_no_dup<A>(s: Seq<A>, e: A)
    requires
        s.no_duplicates(),
        !s.contains(e),
    ensures
        s.push(e).no_duplicates(),
{
    let t = s.push(e);
    assert forall|i: int, j: int| 0 <= i < t.len() && 0 <= j < t.len() && i != j implies t[i]
        != t[j] by {
        if i < s.len() && j < s.len() {
        } else if j == s.len() && i < s.len() {
            assert(s[i] == t[i]);
            if t[i] == e {
                assert(s.contains(e));
            }
        } else if i == s.len() && j < s.len() {
            assert(s[j] == t[j]);
            if t[j] == e {
                assert(s.contains(e));
            }
        }
    }
}

proof fn lemma_add_contains<A>(a: Seq<A>, b: Seq<A>, x: A)
    ensures
        (a + b).contains(x) <==> a.contains(x) || b.contains(x),
{
    if (a + b).contains(x) {
        let i = choose|i: int| 0 <= i < (a + b).len() && (a + b)[i] == x;
        if i < a.len() {
            assert(a[i] == x);
        } else {
            assert(b[i - a.len()] == x);
        }
    }
    if a.contains(x) {
        let i = choose|i: int| 0 <= i < a.len() && a[i] == x;
        assert((a + b)[i] == x);
    }
    if b.contains(x) {
        let i = choose|i: int| 0 <= i < b.len() && b[i] == x;
        assert((a + b)[a.len() + i] == x);
    }
}

/// Membership in a vector of positions, usable from verified code.
fn contains_pos(v: &Vec<Position>, p: Position) -> (r: bool)
    ensures
        r == v@.contains(p),
{
    let mut i: usize = 0;
    while i < v.len()
        invariant
            i <= v@.len(),
            forall|j: int| 0 <= j < i ==> v@[j] != p,
        decreases v@.len() - i,
    {
        if v[i] == p {
            proof {
                assert(v@[i as int] == p);
            }
            return true;
        }
        i = i + 1;
    }
    false
}

/// Occupancy equality, usable from verified code.
fn cell_eq(a: Option<Stone>, b: Option<Stone>) -> (r: bool)
    ensures
        r == (a == b),
{
    match (a, b) {
        (None, None) => true,
        (Some(x), Some(y)) => x == y,
        _ => false,
    }
}

/// An immutable snapshot of stone occupancy over the grid.  Every
/// transformation produces a new `Board`; a value is never mutated once
/// it is handed out.
#[derive(Debug)]
pub struct Board {
    cells: Vec<Option<Stone>>,
}

impl View for Board {
    type V = Seq<Option<Stone>>;

    closed spec fn view(&self) -> Seq<Option<Stone>> {
        self.cells@
    }
}

impl Board {
    /// The board holds exactly one cell per grid position.
    pub open spec fn wf(&self) -> bool {
        self@.len() == CELLS
    }

    /// A board with every cell unoccupied.
    #[verifier::loop_isolation(false)]
    pub fn empty() -> (b: Board)
        ensures
            b.wf(),
            b@ == empty_view(),
    {
        let mut cells: Vec<Option<Stone>> = Vec::new();
        let mut i: usize = 0;
        while i < CELLS
            invariant
                i <= CELLS,
                cells@.len() == i,
                forall|j: int| 0 <= j < i ==> cells@[j] is None,
            decreases CELLS - i,
        {
            cells.push(None);
            i = i + 1;
        }
        let b = Board { cells };
        proof {
            assert(b@ =~= empty_view());
        }
        b
    }

    /// Bounds predicate: both coordinates lie on the grid.
    pub fn is_valid_position(&self, pos: Position) -> (r: bool)
        ensures
            r == valid_pos(pos),
    {
        pos.x < SIZE && pos.y < SIZE
    }

    /// The stone at `pos`, or `None` when the cell is empty or `pos` is
    /// off the grid; never fails.
    pub fn get(&self, pos: Position) -> (r: Option<Stone>)
        requires
            self.wf(),
        ensures
            r == get_spec(self@, pos),
    {
        if !self.is_valid_position(pos) {
            None
        } else {
            self.cells[pos.y * SIZE + pos.x]
        }
    }

    /// Overwrite the cell at `pos`.
    fn set(&mut self, pos: Position, stone: Option<Stone>)
        requires
            old(self).wf(),
            valid_pos(pos),
        ensures
            final(self).wf(),
            final(self)@ == old(self)@.update(idx_of(pos), stone),
    {
        let i = pos.y * SIZE + pos.x;
        self.cells[i] = stone;
    }

    /// The set (at most four elements) of orthogonally adjacent in-grid
    /// positions; empty for an off-grid `pos`.
    pub fn get_neighbours(&self, pos: Position) -> (ns: Vec<Position>)
        ensures
            forall|q: Position|
                #[trigger] ns@.contains(q) <==> valid_pos(pos) && valid_pos(q) && adjacent(
                    pos,
                    q,
                ),
            ns@.no_duplicates(),
    {
        let mut ns: Vec<Position> = Vec::new();
        if !self.is_valid_position(pos) {
            return ns;
        }
        if pos.x > 0 {
            ns.push(Position { x: pos.x - 1, y: pos.y });
        }
        if pos.x + 1 < SIZE {
            ns.push(Position { x: pos.x + 1, y: pos.y });
        }
        if pos.y > 0 {
            ns.push(Position { x: pos.x, y: pos.y - 1 });
        }
        if pos.y + 1 < SIZE {
            ns.push(Position { x: pos.x, y: pos.y + 1 });
        }
        proof {
            assert forall|q: Position| valid_pos(q) && adjacent(pos, q) implies ns@.contains(
                q,
            ) by {
                if q.x == pos.x && q.y == pos.y + 1 {
                    assert(q == (Position { x: pos.x, y: (pos.y + 1) as usize }));
                } else if q.x == pos.x && q.y + 1 == pos.y {
                    assert(q == (Position { x: pos.x, y: (pos.y - 1) as usize }));
                } else if q.y == pos.y && q.x == pos.x + 1 {
                    assert(q == (Position { x: (pos.x + 1) as usize, y: pos.y }));
                } else {
                    assert(q.y == pos.y && q.x + 1 == pos.x);
                    assert(q == (Position { x: (pos.x - 1) as usize, y: pos.y }));
                }
            }
        }
        ns
    }

    /// The maximal connected component of cells reachable from `pos`
    /// through orthogonal adjacency over cells with the same occupancy
    /// as `pos` (an empty region counts as a component as well).
    #[verifier::loop_isolation(false)]
    pub fn get_group(&self, pos: Position) -> (g: Vec<Position>)
        requires
            self.wf(),
            valid_pos(pos),
        ensures
            forall|q: Position| #[trigger] g@.contains(q) <==> in_group(self@, pos, q),
            g@.no_duplicates(),
    {
        let ghost v = self@;
        let colour: Option<Stone> = self.get(pos);
        let mut mask: Vec<bool> = Vec::new();
        let mut i: usize = 0;
        while i < CELLS
            invariant
                i <= CELLS,
                mask@.len() == i,
                forall|j: int| 0 <= j < i ==> !mask@[j],
            decreases CELLS - i,
        {
            mask.push(false);
            i = i + 1;
        }
        let mut group: Vec<Position> = Vec::new();
        let mut work: Vec<Position> = Vec::new();
        proof {
            lemma_pos_at_idx(pos);
            lemma_group_self(v, pos);
            lemma_count_trues_zero(mask@);
            lemma_count_trues_update(mask@, idx_of(pos));
        }
        mask[pos.y * SIZE + pos.x] = true;
        group.push(pos);
        work.push(pos);
        proof {
            assert forall|q: Position| valid_pos(q) implies (mask@[idx_of(q)]
                <==> #[trigger] group@.contains(q)) by {
                lemma_pos_at_idx(q);
                if idx_of(q) == idx_of(pos) {
                    assert(q == pos_at(idx_of(pos)));
                }
            }
        }
        while work.len() > 0
            invariant
                self.wf(),
                v == self@,
                valid_pos(pos),
                colour == cell(v, pos),
                mask@.len() == CELLS,
                count_trues(mask@) == group@.len(),
                group@.contains(pos),
                group@.no_duplicates(),
                work@.no_duplicates(),
                forall|q: Position| #[trigger] group@.contains(q) ==> in_group(v, pos, q),
                forall|q: Position|
                    valid_pos(q) ==> (mask@[idx_of(q)] <==> #[trigger] group@.contains(q)),
                forall|q: Position| #[trigger] work@.contains(q) ==> group@.contains(q),
                forall|q: Position, r: Position|
                    #![trigger group@.contains(q), adjacent(q, r)]
                    group@.contains(q) && !work@.contains(q) && adjacent(q, r) && valid_pos(r)
                        && cell(v, r) == colour ==> group@.contains(r),
            decreases CELLS - group@.len(), work@.len(),
        {
            proof {
                lemma_count_trues_bounds(mask@);
            }
            let ghost work0 = work@;
            let q = work.pop().unwrap();
            proof {
                assert(work0[work0.len() - 1] == q);
                assert(work0.contains(q));
                assert forall|q2: Position| #[trigger] work@.contains(q2) implies work0.contains(
                    q2,
                ) by {
                    let i = choose|i: int| 0 <= i < work@.len() && work@[i] == q2;
                    assert(work0[i] == q2);
                }
                if work@.contains(q) {
                    let i = choose|i: int| 0 <= i < work@.len() && work@[i] == q;
                    assert(work0[i] == work0[work0.len() - 1]);
                }
                assert forall|q2: Position| #[trigger] work0.contains(q2) implies (q2 == q
                    || work@.contains(q2)) by {
                    let i = choose|i: int| 0 <= i < work0.len() && work0[i] == q2;
                    if i < work0.len() - 1 {
                        assert(work@[i] == q2);
                    }
                }
            }
            let ghost work1 = work@;
            let ghost group1 = group@;
            let nbrs = self.get_neighbours(q);
            let mut k: usize = 0;
            while k < nbrs.len()
                invariant
                    self.wf(),
                    v == self@,
                    valid_pos(pos),
                    colour == cell(v, pos),
                    k <= nbrs@.len(),
                    mask@.len() == CELLS,
                    count_trues(mask@) == group@.len(),
                    group@.contains(pos),
                    group@.contains(q),
                    group@.no_duplicates(),
                    work@.no_duplicates(),
                    !work@.contains(q),
                    work@.len() == work1.len() + group@.len() - group1.len(),
                    forall|q2: Position| group1.contains(q2) ==> #[trigger] group@.contains(q2),
                    group1.len() <= group@.len(),
                    forall|q2: Position| #[trigger] group@.contains(q2) ==> in_group(v, pos, q2),
                    forall|q2: Position|
                        valid_pos(q2) ==> (mask@[idx_of(q2)] <==> #[trigger] group@.contains(
                            q2,
                        )),
                    forall|q2: Position| #[trigger] work@.contains(q2) ==> group@.contains(q2),
                    forall|q2: Position, r: Position|
                        #![trigger group@.contains(q2), adjacent(q2, r)]
                        group@.contains(q2) && !work@.contains(q2) && q2 != q && adjacent(q2, r)
                            && valid_pos(r) && cell(v, r) == colour ==> group@.contains(r),
                    forall|j: int|
                        0 <= j < k && cell(v, #[trigger] nbrs@[j]) == colour ==> group@.contains(
                            nbrs@[j],
                        ),
                decreases nbrs@.len() - k,
            {
                let nb = nbrs[k];
                proof {
                    assert(nbrs@[k as int] == nb);
                    assert(nbrs@.contains(nb));
                }
                if cell_eq(self.get(nb), colour) {
                    let ii = nb.y * SIZE + nb.x;
                    proof {
                        lemma_pos_at_idx(nb);
                    }
                    if !mask[ii] {
                        let ghost m0 = mask@;
                        let ghost g0 = group@;
                        let ghost w0 = work@;
                        mask[ii] = true;
                        group.push(nb);
                        work.push(nb);
                        proof {
                            lemma_group_step(v, pos, q, nb);
                            lemma_count_trues_update(m0, idx_of(nb));
                            lemma_push_no_dup(g0, nb);
                            lemma_push_no_dup(w0, nb);
                            assert forall|q2: Position| valid_pos(q2) implies (mask@[idx_of(q2)]
                                <==> #[trigger] group@.contains(q2)) by {
                                lemma_pos_at_idx(q2);
                                if idx_of(q2) == idx_of(nb) {
                                    assert(q2 == pos_at(idx_of(nb)));
                                }
                            }
                        }
                    }
                }
                k = k + 1;
            }
            proof {
                lemma_count_trues_bounds(mask@);
                assert forall|q2: Position, r: Position|
                    #![trigger group@.contains(q2), adjacent(q2, r)]
                    group@.contains(q2) && !work@.contains(q2) && adjacent(q2, r) && valid_pos(r)
                        && cell(v, r) == colour implies group@.contains(r) by {
                    if q2 == q {
                        assert(nbrs@.contains(r));
                        let j = choose|j: int| 0 <= j < nbrs@.len() && nbrs@[j] == r;
                        assert(cell(v, nbrs@[j]) == colour);
                    }
                }
            }
        }
        proof {
            assert forall|q: Position| in_group(v, pos, q) implies group@.contains(q) by {
                let ghost gs = group@;
                let t = |x: Position| gs.contains(x);
                let n = choose|n: nat| linked(v, cell(v, pos), pos, q, n);
                assert forall|a: Position, b: Position|
                    #![trigger t(a), t(b)]
                    t(a) && adjacent(a, b) && valid_pos(b) && cell(v, b) == cell(v, pos) implies t(
                    b,
                ) by {}
                lemma_linked_in_closed(v, cell(v, pos), pos, q, n, t);
            }
        }
        group
    }

    /// The empty orthogonal neighbours of `pos`: the liberties a stone
    /// there would draw on directly.
    #[verifier::loop_isolation(false)]
    pub fn get_liberties(&self, pos: Position) -> (ls: Vec<Position>)
        requires
            self.wf(),
        ensures
            forall|q: Position|
                #[trigger] ls@.contains(q) <==> valid_pos(pos) && valid_pos(q) && adjacent(pos, q)
                    && cell(self@, q) is None,
            ls@.no_duplicates(),
    {
        let nbrs = self.get_neighbours(pos);
        let mut ls: Vec<Position> = Vec::new();
        let mut k: usize = 0;
        while k < nbrs.len()
            invariant
                k <= nbrs@.len(),
                ls@.no_duplicates(),
                forall|q: Position|
                    #[trigger] ls@.contains(q) <==> ((exists|j: int|
                        0 <= j < k && #[trigger] nbrs@[j] == q) && cell(self@, q) is None),
            decreases nbrs@.len() - k,
        {
            let nb = nbrs[k];
            proof {
                assert(nbrs@[k as int] == nb);
                assert(nbrs@.contains(nb));
            }
            if cell_eq(self.get(nb), None) {
                let ghost l0 = ls@;
                proof {
                    if l0.contains(nb) {
                        let j = choose|j: int| 0 <= j < k && nbrs@[j] == nb;
                        assert(nbrs@[j] == nbrs@[k as int]);
                    }
                    lemma_push_no_dup(l0, nb);
                }
                ls.push(nb);
            }
            k = k + 1;
        }
        proof {
            assert forall|q: Position| #[trigger] ls@.contains(q) implies (valid_pos(pos)
                && valid_pos(q) && adjacent(pos, q) && cell(self@, q) is None) by {
                let j = choose|j: int| 0 <= j < k && #[trigger] nbrs@[j] == q;
                assert(nbrs@.contains(q));
            }
            assert forall|q: Position|
                valid_pos(pos) && valid_pos(q) && adjacent(pos, q) && cell(self@, q)
                    is None implies #[trigger] ls@.contains(q) by {
                assert(nbrs@.contains(q));
                let j = choose|j: int| 0 <= j < nbrs@.len() && nbrs@[j] == q;
                assert(0 <= j < k && nbrs@[j] == q);
            }
        }
        ls
    }

    /// The union of the liberties of every member of `group`.
    #[verifier::loop_isolation(false)]
    pub fn get_group_liberties(&self, group: &Vec<Position>) -> (ls: Vec<Position>)
        requires
            self.wf(),
        ensures
            forall|q: Position|
                #[trigger] ls@.contains(q) <==> (valid_pos(q) && cell(self@, q) is None
                    && exists|p: Position|
                    #[trigger] group@.contains(p) && valid_pos(p) && adjacent(p, q)),
            ls@.no_duplicates(),
    {
        let mut ls: Vec<Position> = Vec::new();
        let mut i: usize = 0;
        while i < group.len()
            invariant
                i <= group@.len(),
                ls@.no_duplicates(),
                forall|q: Position|
                    #[trigger] ls@.contains(q) <==> (valid_pos(q) && cell(self@, q) is None
                        && exists|j: int|
                        0 <= j < i && valid_pos(#[trigger] group@[j]) && adjacent(group@[j], q)),
            decreases group@.len() - i,
        {
            let p = group[i];
            let libs = self.get_liberties(p);
            let mut k: usize = 0;
            while k < libs.len()
                invariant
                    k <= libs@.len(),
                    ls@.no_duplicates(),
                    forall|q: Position|
                        #[trigger] ls@.contains(q) <==> ((valid_pos(q) && cell(self@, q) is None
                            && exists|j: int|
                            0 <= j < i && valid_pos(#[trigger] group@[j]) && adjacent(
                                group@[j],
                                q,
                            )) || (exists|j: int| 0 <= j < k && #[trigger] libs@[j] == q)),
                decreases libs@.len() - k,
            {
                let l = libs[k];
                proof {
                    assert(libs@[k as int] == l);
                    assert(libs@.contains(l));
                }
                if !contains_pos(&ls, l) {
                    proof {
                        lemma_push_no_dup(ls@, l);
                    }
                    ls.push(l);
                }
                k = k + 1;
            }
            proof {
                assert(group@[i as int] == p);
                assert forall|q: Position| #[trigger] ls@.contains(q) implies (valid_pos(q)
                    && cell(self@, q) is None && exists|j: int|
                    0 <= j < i + 1 && valid_pos(#[trigger] group@[j]) && adjacent(
                        group@[j],
                        q,
                    )) by {
                    if exists|j: int| 0 <= j < k && #[trigger] libs@[j] == q {
                        let j = choose|j: int| 0 <= j < k && #[trigger] libs@[j] == q;
                        assert(libs@.contains(q));
                    }
                }
                assert forall|q: Position|
                    (valid_pos(q) && cell(self@, q) is None && exists|j: int|
                        0 <= j < i + 1 && valid_pos(#[trigger] group@[j]) && adjacent(
                            group@[j],
                            q,
                        )) implies #[trigger] ls@.contains(q) by {
                    let j = choose|j: int|
                        0 <= j < i + 1 && valid_pos(#[trigger] group@[j]) && adjacent(
                            group@[j],
                            q,
                        );
                    if j == i {
                        assert(libs@.contains(q));
                        let jj = choose|jj: int| 0 <= jj < libs@.len() && libs@[jj] == q;
                    }
                }
            }
            i = i + 1;
        }
        proof {
            assert forall|q: Position| #[trigger] ls@.contains(q) implies (valid_pos(q)
                && cell(self@, q) is None && exists|p: Position|
                #[trigger] group@.contains(p) && valid_pos(p) && adjacent(p, q)) by {
                let j = choose|j: int|
                    0 <= j < i && valid_pos(#[trigger] group@[j]) && adjacent(group@[j], q);
                assert(group@.contains(group@[j]));
            }
            assert forall|q: Position|
                (valid_pos(q) && cell(self@, q) is None && exists|p: Position|
                    #[trigger] group@.contains(p) && valid_pos(p) && adjacent(
                        p,
                        q,
                    )) implies #[trigger] ls@.contains(q) by {
                let p = choose|p: Position|
                    #[trigger] group@.contains(p) && valid_pos(p) && adjacent(p, q);
                let j = choose|j: int| 0 <= j < group@.len() && group@[j] == p;
                assert(0 <= j < i && valid_pos(group@[j]) && adjacent(group@[j], q));
            }
        }
        ls
    }


    /// Place `stone` at `pos`.  An off-grid position is rejected as
    /// `OutsideBoard` and a non-empty cell as `Occupied`.  Otherwise the
    /// stone is placed on a copy, every adjacent opposing group whose
    /// last liberty it took is removed, and only then the placed stone's
    /// own group is checked: if it has no liberty the move is rejected
    /// as `Suicidal`.  This board itself is never changed.
    #[verifier::loop_isolation(false)]
    pub fn put(&self, pos: Position, stone: Stone) -> (r: Result<Board, IllegalMove>)
        requires
            self.wf(),
        ensures
            match put_spec(self@, pos, stone) {
                Result::Ok(w) => r matches Ok(b) && b.wf() && b@ == w,
                Result::Err(e) => r == Result::<Board, IllegalMove>::Err(e),
            },
    {
        if !self.is_valid_position(pos) {
            return Result::Err(IllegalMove::OutsideBoard);
        }
        match self.get(pos) {
            Some(_) => {
                return Result::Err(IllegalMove::Occupied);
            },
            None => {},
        }
        let mut new_board = self.duplicate();
        new_board.set(pos, Some(stone));
        let ghost v1 = new_board@;
        let opponent = stone.opposite();
        let nbrs = new_board.get_neighbours(pos);
        let mut captured: Vec<Position> = Vec::new();
        let mut k: usize = 0;
        while k < nbrs.len()
            invariant
                k <= nbrs@.len(),
                forall|q: Position|
                    #[trigger] captured@.contains(q) <==> exists|j: int|
                        #![auto]
                        0 <= j < k && capturing_neighbour(v1, stone, nbrs@[j]) && in_group(
                            v1,
                            nbrs@[j],
                            q,
                        ),
            decreases nbrs@.len() - k,
        {
            let nb = nbrs[k];
            proof {
                assert(nbrs@[k as int] == nb);
                assert(nbrs@.contains(nb));
            }
            if cell_eq(new_board.get(nb), Some(opponent)) {
                let mut g = new_board.get_group(nb);
                let libs = new_board.get_group_liberties(&g);
                if libs.len() == 0 {
                    proof {
                        if group_has_liberty(v1, nb) {
                            let (a, b) = choose|a: Position, b: Position|
                                in_group(v1, nb, a) && adjacent(a, b) && valid_pos(b) && cell(
                                    v1,
                                    b,
                                ) is None;
                            lemma_group_member(v1, nb, a);
                            assert(g@.contains(a));
                            assert(libs@.contains(b));
                        }
                    }
                    let ghost c0 = captured@;
                    let ghost gv = g@;
                    captured.append(&mut g);
                    proof {
                        assert forall|q: Position| #[trigger] captured@.contains(q) implies (
                        exists|j: int|
                            #![auto]
                            0 <= j < k + 1 && capturing_neighbour(v1, stone, nbrs@[j])
                                && in_group(v1, nbrs@[j], q)) by {
                            lemma_add_contains(c0, gv, q);
                        }
                        assert forall|q: Position|
                            (exists|j: int|
                                #![auto]
                                0 <= j < k + 1 && capturing_neighbour(v1, stone, nbrs@[j])
                                    && in_group(v1, nbrs@[j], q)) implies #[trigger] captured@.contains(
                            q,
                        ) by {
                            lemma_add_contains(c0, gv, q);
                        }
                    }
                } else {
                    proof {
                        let b0 = libs@[0];
                        assert(libs@.contains(b0));
                        let p = choose|p: Position|
                            #[trigger] g@.contains(p) && valid_pos(p) && adjacent(p, b0);
                        assert(in_group(v1, nb, p));
                        assert(group_has_liberty(v1, nb));
                    }
                }
            }
            k = k + 1;
        }
        proof {
            assert forall|q: Position| #[trigger] captured@.contains(q) implies is_captured(
                v1,
                pos,
                stone,
                q,
            ) by {
                let j = choose|j: int|
                    #![auto]
                    0 <= j < k && capturing_neighbour(v1, stone, nbrs@[j]) && in_group(
                        v1,
                        nbrs@[j],
                        q,
                    );
                assert(nbrs@.contains(nbrs@[j]));
            }
            assert forall|q: Position| is_captured(v1, pos, stone, q) implies #[trigger] captured@.contains(
                q,
            ) by {
                let n = choose|n: Position|
                    #![auto]
                    valid_pos(n) && adjacent(pos, n) && capturing_neighbour(v1, stone, n)
                        && in_group(v1, n, q);
                assert(nbrs@.contains(n));
                let j = choose|j: int| 0 <= j < nbrs@.len() && nbrs@[j] == n;
                assert(0 <= j < k && capturing_neighbour(v1, stone, nbrs@[j]) && in_group(
                    v1,
                    nbrs@[j],
                    q,
                ));
            }
        }
        let mut t: usize = 0;
        while t < captured.len()
            invariant
                t <= captured@.len(),
                new_board.wf(),
                forall|i: int|
                    0 <= i < CELLS ==> new_board@[i] == (if (exists|j: int|
                        0 <= j < t && idx_of(#[trigger] captured@[j]) == i) {
                        None
                    } else {
                        v1[i]
                    }),
            decreases captured@.len() - t,
        {
            let p = captured[t];
            proof {
                assert(captured@[t as int] == p);
                assert(captured@.contains(p));
                let n = choose|n: Position|
                    #![auto]
                    valid_pos(n) && adjacent(pos, n) && capturing_neighbour(v1, stone, n)
                        && in_group(v1, n, p);
                lemma_group_member(v1, n, p);
                lemma_pos_at_idx(p);
            }
            let ghost b0 = new_board@;
            new_board.set(p, None);
            proof {
                assert forall|i: int|
                    0 <= i < CELLS implies new_board@[i] == (if (exists|j: int|
                        0 <= j < t + 1 && idx_of(#[trigger] captured@[j]) == i) {
                        None
                    } else {
                        v1[i]
                    }) by {
                    if i == idx_of(p) {
                        assert(idx_of(captured@[t as int]) == i);
                    } else {
                        assert(new_board@[i] == b0[i]);
                        assert forall|j: int|
                            0 <= j < t + 1 && idx_of(#[trigger] captured@[j]) == i implies 0 <= j
                            < t by {}
                    }
                }
            }
            t = t + 1;
        }
        proof {
            let va = after_put(self@, pos, stone);
            assert(v1 == self@.update(idx_of(pos), Some(stone)));
            assert forall|i: int| 0 <= i < CELLS implies new_board@[i] == va[i] by {
                lemma_idx_pos_at(i);
                if exists|j: int| 0 <= j < captured@.len() && idx_of(#[trigger] captured@[j])
                    == i {
                    let j = choose|j: int|
                        0 <= j < captured@.len() && idx_of(#[trigger] captured@[j]) == i;
                    assert(captured@.contains(captured@[j]));
                    let n = choose|n: Position|
                        #![auto]
                        valid_pos(n) && adjacent(pos, n) && capturing_neighbour(v1, stone, n)
                            && in_group(v1, n, captured@[j]);
                    lemma_group_member(v1, n, captured@[j]);
                    lemma_pos_at_idx(captured@[j]);
                    assert(pos_at(i) == captured@[j]);
                    assert(is_captured(v1, pos, stone, pos_at(i)));
                } else {
                    if is_captured(v1, pos, stone, pos_at(i)) {
                        assert(captured@.contains(pos_at(i)));
                        let j = choose|j: int|
                            0 <= j < captured@.len() && captured@[j] == pos_at(i);
                        assert(idx_of(captured@[j]) == i);
                    }
                }
            }
            assert(new_board@ =~= va);
        }
        let g2 = new_board.get_group(pos);
        let libs2 = new_board.get_group_liberties(&g2);
        if libs2.len() == 0 {
            proof {
                if group_has_liberty(new_board@, pos) {
                    let (a, b) = choose|a: Position, b: Position|
                        in_group(new_board@, pos, a) && adjacent(a, b) && valid_pos(b) && cell(
                            new_board@,
                            b,
                        ) is None;
                    lemma_group_member(new_board@, pos, a);
                    assert(g2@.contains(a));
                    assert(libs2@.contains(b));
                }
            }
            return Result::Err(IllegalMove::Suicidal);
        }
        proof {
            let b0 = libs2@[0];
            assert(libs2@.contains(b0));
            let p = choose|p: Position|
                #[trigger] g2@.contains(p) && valid_pos(p) && adjacent(p, b0);
            assert(in_group(new_board@, pos, p));
            assert(group_has_liberty(new_board@, pos));
        }
        Result::Ok(new_board)
    }

    /// Structural equality, cell for cell; the ko rule compares boards
    /// with it.
    #[verifier::loop_isolation(false)]
    pub fn equals(&self, other: &Board) -> (r: bool)
        requires
            self.wf(),
            other.wf(),
        ensures
            r == (self@ == other@),
    {
        let mut i: usize = 0;
        while i < CELLS
            invariant
                i <= CELLS,
                forall|j: int| 0 <= j < i ==> self@[j] == other@[j],
            decreases CELLS - i,
        {
            if !cell_eq(self.cells[i], other.cells[i]) {
                proof {
                    assert(self@[i as int] != other@[i as int]);
                }
                return false;
            }
            i = i + 1;
        }
        proof {
            assert(self@ =~= other@);
        }
        true
    }

    /// The grid as rows of cells: row `y` holds the cells `(x, y)` for
    /// increasing `x`.
    #[verifier::loop_isolation(false)]
    pub fn matrix(&self) -> (m: Vec<Vec<Option<Stone>>>)
        requires
            self.wf(),
        ensures
            m@.len() == SIZE,
            forall|y: int| 0 <= y < SIZE ==> (#[trigger] m@[y])@.len() == SIZE,
            forall|y: int, x: int|
                #![trigger m@[y]@[x]]
                0 <= y < SIZE && 0 <= x < SIZE ==> m@[y]@[x] == self@[y * SIZE + x],
    {
        let mut m: Vec<Vec<Option<Stone>>> = Vec::new();
        let mut y: usize = 0;
        while y < SIZE
            invariant
                y <= SIZE,
                m@.len() == y,
                forall|yy: int| 0 <= yy < y ==> (#[trigger] m@[yy])@.len() == SIZE,
                forall|yy: int, x: int|
                    #![trigger m@[yy]@[x]]
                    0 <= yy < y && 0 <= x < SIZE ==> m@[yy]@[x] == self@[yy * SIZE + x],
            decreases SIZE - y,
        {
            let mut row: Vec<Option<Stone>> = Vec::new();
            let mut x: usize = 0;
            while x < SIZE
                invariant
                    x <= SIZE,
                    row@.len() == x,
                    forall|xx: int| 0 <= xx < x ==> #[trigger] row@[xx] == self@[y * SIZE + xx],
                decreases SIZE - x,
            {
                row.push(self.cells[y * SIZE + x]);
                x = x + 1;
            }
            m.push(row);
            y = y + 1;
        }
        m
    }

    /// A cell-for-cell copy of this board.
    #[verifier::loop_isolation(false)]
    pub fn duplicate(&self) -> (b: Board)
        requires
            self.wf(),
        ensures
            b.wf(),
            b@ == self@,
    {
        let mut cells: Vec<Option<Stone>> = Vec::new();
        let mut i: usize = 0;
        while i < CELLS
            invariant
                self.wf(),
                i <= CELLS,
                cells@.len() == i,
                forall|j: int| 0 <= j < i ==> cells@[j] == self@[j],
            decreases CELLS - i,
        {
            cells.push(self.cells[i]);
            i = i + 1;
        }
        let b = Board { cells };
        proof {
            assert(b@ =~= self@);
        }
        b
    }
}

} // verus!
