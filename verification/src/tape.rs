//! A tape without ends.
//!
//! Its cells are nodes that know their neighbours. A node is made when
//! somebody first moves onto it, and is found again by its handle, which stays
//! good for as long as the tape lives.

use vstd::prelude::*;

verus! {

/// A cell's value. Additions wrap around.
pub struct CellWrapper(i64);

impl View for CellWrapper {
    type V = i64;

    closed spec fn view(&self) -> i64 {
        self.0
    }
}

impl CellWrapper {
    /// A cell that holds zero.
    pub fn new() -> (c: Self)
        ensures
            c@ == 0,
    {
        CellWrapper(0)
    }

    /// Adds `d`.
    pub fn inc(&mut self, d: i64)
        ensures
            final(self)@ == old(self)@.wrapping_add(d),
            (final(self)@ - (old(self)@ + d)) % 0x1_0000_0000_0000_0000 == 0,
    {
        self.0 = self.0.wrapping_add(d);
    }

    /// The value.
    pub fn get(&self) -> (v: i64)
        ensures
            v == self@,
    {
        self.0
    }
}

/// A cell with the handles of its neighbours, where they exist.
pub struct Node {
    left: Option<usize>,
    right: Option<usize>,
    val: CellWrapper,
}

impl Node {
    /// The handle of the left neighbour.
    pub closed spec fn left(self) -> Option<usize> {
        self.left
    }

    /// The handle of the right neighbour.
    pub closed spec fn right(self) -> Option<usize> {
        self.right
    }

    /// The cell's value.
    pub closed spec fn val(self) -> i64 {
        self.val@
    }

    /// A node that holds zero and has no neighbours yet.
    pub fn new() -> (n: Self)
        ensures
            n.left() == None::<usize>,
            n.right() == None::<usize>,
            n.val() == 0,
    {
        Node { left: None, right: None, val: CellWrapper::new() }
    }

    /// Makes `node` the left neighbour of `of`.
    pub fn attach_left(of: &mut Self, node: usize)
        ensures
            final(of).left() == Some(node),
            final(of).right() == old(of).right(),
            final(of).val() == old(of).val(),
    {
        of.left = Some(node);
    }

    /// Makes `node` the right neighbour of `of`.
    pub fn attach_right(of: &mut Self, node: usize)
        ensures
            final(of).right() == Some(node),
            final(of).left() == old(of).left(),
            final(of).val() == old(of).val(),
    {
        of.right = Some(node);
    }
}

/// The tape. Its view gives every cell's value by the cell's position; cells
/// that no node stands for yet hold zero.
pub struct Tape {
    nodes: Vec<Node>,
    at: Ghost<Seq<int>>,
}

/// The way that `Move(d)` goes.
pub open spec fn direction(d: i8) -> int {
    if d > 0 {
        1
    } else {
        -1
    }
}

/// A tape that holds zero everywhere.
pub open spec fn blank() -> Map<int, i64> {
    Map::total(|p: int| 0i64)
}

impl View for Tape {
    type V = Map<int, i64>;

    closed spec fn view(&self) -> Map<int, i64> {
        Map::total(
            |p: int|
                if self.at@.contains(p) {
                    self.nodes@[self.at@.index_of(p)].val()
                } else {
                    0i64
                },
        )
    }
}

impl Tape {
    /// `node` is a handle of this tape.
    pub closed spec fn holds(self, node: usize) -> bool {
        node < self.nodes@.len()
    }

    /// Where the node with handle `node` stands; the head is at 0.
    pub closed spec fn position(self, node: usize) -> int {
        self.at@[node as int]
    }

    /// Nodes stand at distinct positions without gaps, and neighbours know
    /// each other.
    pub closed spec fn well_formed(self) -> bool {
        &&& self.at@.len() == self.nodes@.len()
        &&& self.nodes@.len() > 0
        &&& self.at@[0] == 0
        &&& self.at@.no_duplicates()
        &&& forall|i: int|
            0 <= i < self.nodes@.len() ==> match (#[trigger] self.nodes@[i]).left() {
                Some(l) => l < self.nodes@.len() && self.at@[l as int] == self.at@[i] - 1,
                None => forall|j: int| 0 <= j < self.at@.len() ==> #[trigger] self.at@[j] >= self.at@[i],
            }
        &&& forall|i: int|
            0 <= i < self.nodes@.len() ==> match (#[trigger] self.nodes@[i]).right() {
                Some(r) => r < self.nodes@.len() && self.at@[r as int] == self.at@[i] + 1,
                None => forall|j: int| 0 <= j < self.at@.len() ==> #[trigger] self.at@[j] <= self.at@[i],
            }
    }

    /// Every handle of `self` is still good for `later`, and stands for the
    /// same position there.
    pub open spec fn kept_by(self, later: Tape) -> bool {
        forall|n: usize| #[trigger]
            self.holds(n) ==> later.holds(n) && later.position(n) == self.position(n)
    }

    /// The value at a node's position is the node's.
    proof fn lemma_view_at(self, i: int)
        requires
            self.well_formed(),
            0 <= i < self.nodes@.len(),
        ensures
            self@[self.at@[i]] == self.nodes@[i].val(),
    {
        assert(self.at@.contains(self.at@[i]));
        let k = self.at@.index_of(self.at@[i]);
        assert(self.at@[k] == self.at@[i]);
    }

    /// A blank tape with its head.
    pub fn new() -> (t: Self)
        ensures
            t.well_formed(),
            t@ == blank(),
            forall|p: int| #[trigger] t@[p] == 0,
            t.holds(0),
            t.position(0) == 0,
    {
        let mut nodes: Vec<Node> = Vec::new();
        nodes.push(Node::new());
        let t = Tape { nodes, at: Ghost(Seq::empty().push(0int)) };
        assert forall|p: int| #[trigger] t@[p] == 0 by {
            if t.at@.contains(p) {
                t.lemma_view_at(0);
            }
        }
        assert(t@ =~= blank());
        t
    }

    /// Adds `d` to the cell of `node`.
    pub fn inc(&mut self, node: usize, d: i64)
        requires
            old(self).well_formed(),
            old(self).holds(node),
        ensures
            final(self).well_formed(),
            old(self).kept_by(*final(self)),
            final(self)@ == old(self)@.insert(
                old(self).position(node),
                old(self)@[old(self).position(node)].wrapping_add(d),
            ),
            (final(self)@[old(self).position(node)] - (old(self)@[old(self).position(node)] + d))
                % 0x1_0000_0000_0000_0000 == 0,
    {
        self.nodes[node].val.inc(d);
        proof {
            let p = old(self).position(node);
            old(self).lemma_view_at(node as int);
            assert forall|q: int| #[trigger] self@[q] == old(self)@.insert(
                p,
                old(self)@[p].wrapping_add(d),
            )[q] by {
                if self.at@.contains(q) {
                    let k = self.at@.index_of(q);
                    self.lemma_view_at(k);
                    old(self).lemma_view_at(k);
                }
            }
            assert(self@ =~= old(self)@.insert(p, old(self)@[p].wrapping_add(d)));
        }
    }

    /// The value of the cell of `node`.
    pub fn get(&self, node: usize) -> (v: i64)
        requires
            self.well_formed(),
            self.holds(node),
        ensures
            v == self@[self.position(node)],
    {
        proof {
            self.lemma_view_at(node as int);
        }
        self.nodes[node].val.get()
    }

    /// The neighbour of `node` in the direction of `d`, made if it was not
    /// there.
    pub fn neighbour(&mut self, node: usize, d: i8) -> (next: usize)
        requires
            old(self).well_formed(),
            old(self).holds(node),
        ensures
            final(self).well_formed(),
            old(self).kept_by(*final(self)),
            final(self)@ == old(self)@,
            final(self).holds(next),
            final(self).position(next) == old(self).position(node) + direction(d),
            d > 0 ==> final(self).position(next) == old(self).position(node) + 1,
            d <= 0 ==> final(self).position(next) == old(self).position(node) - 1,
    {
        let target: Option<usize> = if d > 0 {
            self.nodes[node].right
        } else {
            self.nodes[node].left
        };
        match target {
            Some(n) => n,
            None => {
                let next: usize = self.nodes.len();
                let mut fresh: Node = Node::new();
                if d > 0 {
                    Node::attach_right(&mut self.nodes[node], next);
                    Node::attach_left(&mut fresh, node);
                } else {
                    Node::attach_left(&mut self.nodes[node], next);
                    Node::attach_right(&mut fresh, node);
                }
                self.nodes.push(fresh);
                self.at = Ghost(self.at@.push(self.at@[node as int] + direction(d)));
                proof {
                    let p = old(self).position(node) + direction(d);
                    assert(!old(self).at@.contains(p));
                    assert(self.well_formed());
                    assert forall|q: int| #[trigger] self@[q] == old(self)@[q] by {
                        if self.at@.contains(q) {
                            let k = self.at@.index_of(q);
                            self.lemma_view_at(k);
                            if k < next {
                                old(self).lemma_view_at(k);
                            }
                        } else if old(self).at@.contains(q) {
                            let k = old(self).at@.index_of(q);
                            assert(self.at@[k] == q);
                        }
                    }
                    assert(self@ =~= old(self)@);
                }
                next
            },
        }
    }
}

/// A blank tape has a cell that holds zero at every position.
pub proof fn law_blank_holds_zero(p: int)
    ensures
        blank().dom().contains(p),
        blank()[p] == 0,
{
}

/// What is positive goes one cell to the right, what is not one cell to the left.
pub proof fn law_sign_gives_direction(d: i8)
    ensures
        d > 0 ==> direction(d) == 1,
        d <= 0 ==> direction(d) == -1,
{
}

/// The tape has a cell at every position.
pub proof fn law_tape_is_endless(t: Tape, p: int)
    ensures
        t@.dom().contains(p),
{
}

/// Two handles of one position are the same handle.
pub proof fn law_handles_are_unique(t: Tape, a: usize, b: usize)
    requires
        t.well_formed(),
        t.holds(a),
        t.holds(b),
        t.position(a) == t.position(b),
    ensures
        a == b,
{
}

/// A step to one side and a step back lead to the node that one started from,
/// whatever happened to the tape between them: `before`, `between` and `after`
/// are the tape before the first step, after it and after the second.
pub proof fn law_way_back(
    before: Tape,
    between: Tape,
    after: Tape,
    node: usize,
    next: usize,
    back: usize,
    d: i8,
    e: i8,
)
    requires
        after.well_formed(),
        before.kept_by(between),
        between.kept_by(after),
        before.holds(node),
        between.holds(next),
        between.position(next) == before.position(node) + direction(d),
        after.holds(back),
        after.position(back) == between.position(next) + direction(e),
        direction(d) != direction(e),
    ensures
        back == node,
{
    law_handles_are_unique(after, node, back);
}

} // verus!
