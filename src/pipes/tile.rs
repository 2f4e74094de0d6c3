//! Tiles: four directional ports, each empty or carrying one of two
//! connector kinds, and the orientations a tile can still take.
use vstd::prelude::*;

verus! {

/// The compatibility class of a port: only ports of the same kind connect.
#[derive(Debug, Clone, Copy, PartialEq, Eq, Hash)]
pub enum Connection {
    Single,
    Double,
}

/// Ports in the order right, down, left, up.
pub type Ports = [Option<Connection>; 4];

/// One rotation of a tile, with its distance in quarter turns from the
/// tile as it was printed.
#[derive(Debug, Clone, Copy)]
pub struct Orientation {
    pub connections: Ports,
    pub rotations: u32,
}

/// Ports after one clockwise quarter turn: the port that faced up now faces right.
pub open spec fn turned_once(p: Seq<Option<Connection>>) -> Seq<Option<Connection>> {
    seq![p[3], p[0], p[1], p[2]]
}

/// Ports after `n` clockwise quarter turns.
pub open spec fn turned(p: Seq<Option<Connection>>, n: nat) -> Seq<Option<Connection>>
    decreases n,
{
    if n == 0 {
        p
    } else {
        turned_once(turned(p, (n - 1) as nat))
    }
}

/// Turns a port set by one quarter turn clockwise.
pub fn rotate(p: &Ports) -> (r: Ports)
    ensures
        r@ == turned_once(p@),
{
    let r = [p[3], p[0], p[1], p[2]];
    assert(r@ =~= turned_once(p@));
    r
}

/// Four quarter turns bring every port set back to itself.
pub proof fn lemma_four_turns(p: Seq<Option<Connection>>)
    requires
        p.len() == 4,
    ensures
        turned_once(turned_once(turned_once(turned_once(p)))) == p,
        turned(p, 4) == p,
{
    reveal_with_fuel(turned, 5);
    assert(turned_once(turned_once(turned_once(turned_once(p)))) =~= p);
}


/// The port array after one clockwise quarter turn.
pub open spec fn turned_ports_once(p: Ports) -> Ports {
    [p[3], p[0], p[1], p[2]]
}

/// The port array after `n` clockwise quarter turns.
pub open spec fn turned_ports(p: Ports, n: nat) -> Ports
    decreases n,
{
    if n == 0 {
        p
    } else {
        turned_ports_once(turned_ports(p, (n - 1) as nat))
    }
}

pub proof fn lemma_turned_ports(p: Ports, n: nat)
    ensures
        turned_ports(p, n)@ == turned(p@, n),
    decreases n,
{
    if n > 0 {
        lemma_turned_ports(p, (n - 1) as nat);
        let q = turned_ports(p, (n - 1) as nat);
        assert(turned_ports_once(q)@ =~= turned_once(q@));
    }
}

/// A tile as parsed: every distinct rotation of `p` is a candidate, by
/// increasing distance.
pub open spec fn fresh_tile(p: Ports) -> TileState {
    TileState {
        original: p@,
        candidates: Seq::new(
            period(p@),
            |i: int| Orientation { connections: turned_ports(p, i as nat), rotations: i as u32 },
        ),
    }
}

/// How many distinct orientations a port set has: 1, 2 or 4.
pub open spec fn period(p: Seq<Option<Connection>>) -> nat {
    if turned(p, 1) == p {
        1
    } else if turned(p, 2) == p {
        2
    } else {
        4
    }
}

/// Whether `o` is one of the distinct rotations of `original`, with its distance.
pub open spec fn is_turn_of(original: Seq<Option<Connection>>, o: Orientation) -> bool {
    &&& o.rotations < period(original)
    &&& o.connections@ == turned(original, o.rotations as nat)
}

/// What a tile is, seen by the solver: the ports as printed, and the
/// orientations still considered possible.
pub struct TileState {
    pub original: Seq<Option<Connection>>,
    pub candidates: Seq<Orientation>,
}

/// A tile of the grid with its remaining candidate orientations.
#[derive(Debug)]
pub struct Pipe {
    pub original: Ports,
    pub possible_orientations: Vec<Orientation>,
}

impl View for Pipe {
    type V = TileState;

    open spec fn view(&self) -> TileState {
        TileState { original: self.original@, candidates: self.possible_orientations@ }
    }
}

impl Pipe {
    /// A tile whose candidates are all the distinct rotations of `original`,
    /// by increasing distance.
    pub fn new(original: Ports) -> (r: Pipe)
        ensures
            r.original == original,
            r@ == fresh_tile(original),
            r@.wf(),
            r@.candidates.len() == period(original@),
            forall|i: int|
                0 <= i < r@.candidates.len() ==> (#[trigger] r@.candidates[i]).rotations == i
                    && r@.candidates[i].connections@ == turned(original@, i as nat),
    {
        proof {
            lemma_turns_small(original@);
        }
        let mut v: Vec<Orientation> = Vec::new();
        v.push(Orientation { connections: original, rotations: 0 });
        let t1 = rotate(&original);
        if !same_ports(&t1, &original) {
            let t2 = rotate(&t1);
            v.push(Orientation { connections: t1, rotations: 1 });
            if !same_ports(&t2, &original) {
                let t3 = rotate(&t2);
                v.push(Orientation { connections: t2, rotations: 2 });
                v.push(Orientation { connections: t3, rotations: 3 });
            }
        }
        let r = Pipe { original, possible_orientations: v };
        assert(r@.candidates.len() == period(original@));
        proof {
            broadcast use vstd::array::group_array_axioms;
            let f = fresh_tile(original);
            assert forall|i: int|
                0 <= i < f.candidates.len() implies r@.candidates[i] == f.candidates[i] by {
                lemma_turned_ports(original, i as nat);
                assert(r@.candidates[i].connections =~= f.candidates[i].connections);
            }
            assert(r@.candidates =~= f.candidates);
        }
        r
    }

    /// Whether exactly one orientation remains.
    pub fn is_locked(&self) -> (r: bool)
        ensures
            r == self@.is_locked(),
    {
        self.possible_orientations.len() == 1
    }

    /// An independent copy of this tile.
    pub fn duplicate(&self) -> (r: Pipe)
        ensures
            r@ == self@,
    {
        let mut v: Vec<Orientation> = Vec::new();
        let n = self.possible_orientations.len();
        for i in 0..n
            invariant
                n == self.possible_orientations.len(),
                v@ == self.possible_orientations@.take(i as int),
        {
            v.push(self.possible_orientations[i]);
            assert(v@ =~= self.possible_orientations@.take(i + 1));
        }
        assert(v@ =~= self.possible_orientations@);
        Pipe { original: self.original, possible_orientations: v }
    }
}

impl TileState {
    /// Every candidate is a distinct rotation of the printed ports, listed
    /// by strictly increasing distance.
    pub open spec fn wf(self) -> bool {
        &&& self.original.len() == 4
        &&& forall|i: int|
            0 <= i < self.candidates.len() ==> #[trigger] is_turn_of(
                self.original,
                self.candidates[i],
            )
        &&& forall|i: int, j: int|
            0 <= i < j < self.candidates.len() ==> self.candidates[i].rotations
                < self.candidates[j].rotations
    }

    /// A tile is locked when exactly one orientation remains.
    pub open spec fn is_locked(self) -> bool {
        self.candidates.len() == 1
    }
}

/// The kind of port `p` carries in direction `d` (0 right, 1 down, 2 left, 3 up).
pub fn port_kind(p: &Ports, d: usize) -> (r: Option<Connection>)
    requires
        d < 4,
    ensures
        r == p@[d as int],
{
    p[d]
}

/// Whether two ports carry the same thing: both empty, or the same kind.
pub fn same_port(a: Option<Connection>, b: Option<Connection>) -> (r: bool)
    ensures
        r == (a == b),
{
    match (a, b) {
        (None, None) => true,
        (Some(Connection::Single), Some(Connection::Single)) => true,
        (Some(Connection::Double), Some(Connection::Double)) => true,
        _ => false,
    }
}

/// Whether two port sets are the same.
pub fn same_ports(a: &Ports, b: &Ports) -> (r: bool)
    ensures
        r == (a@ == b@),
{
    let r = same_port(a[0], b[0]) && same_port(a[1], b[1]) && same_port(a[2], b[2])
        && same_port(a[3], b[3]);
    if r {
        assert(a@ =~= b@);
    }
    r
}

proof fn lemma_turns_small(p: Seq<Option<Connection>>)
    requires
        p.len() == 4,
    ensures
        turned(p, 1) == turned_once(p),
        turned(p, 2) == turned_once(turned_once(p)),
        turned(p, 3) == turned_once(turned_once(turned_once(p))),
{
    reveal_with_fuel(turned, 4);
}

/// Distinct rotations of a tile reach distinct port sets, so the distance
/// kept with a candidate is the least number of quarter turns that reaches it.
pub proof fn lemma_turns_distinct(p: Seq<Option<Connection>>, k: nat, i: nat)
    requires
        p.len() == 4,
        k < i < period(p),
    ensures
        turned(p, k) != turned(p, i),
{
    lemma_turns_small(p);
    reveal_with_fuel(turned, 2);
    let t1 = turned_once(p);
    let t2 = turned_once(t1);
    let t3 = turned_once(t2);
    if k == 0 && i == 3 {
        if p == t3 {
            assert(t1 =~= p);
        }
    } else if k == 1 && i == 2 {
        if t1 == t2 {
            assert(t1[0] == t2[0] && t1[1] == t2[1] && t1[2] == t2[2] && t1[3] == t2[3]);
            assert(t1 =~= p);
        }
    } else if k == 1 && i == 3 {
        if t1 == t3 {
            assert(t1[0] == t3[0] && t1[1] == t3[1] && t1[2] == t3[2] && t1[3] == t3[3]);
            assert(t2 =~= p);
        }
    } else if k == 2 && i == 3 {
        if t2 == t3 {
            assert(t2[0] == t3[0] && t2[1] == t3[1] && t2[2] == t3[2] && t2[3] == t3[3]);
            assert(t1 =~= p);
        }
    }
}

} // verus!
