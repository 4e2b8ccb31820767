//! The search tree: the nodes, the store that keeps one node for each
//! position, and the tree that grows the store and moves its head.

use vstd::prelude::*;
use std::collections::HashMap;
use crate::mcts::graph::{edge, reaches, lemma_reaches_self};
use crate::mcts::policy::SelectionPolicy;
use crate::mcts::score::{Score, Ratio, VISIT_LIMIT, ONE, win_share, uct, exploration_of};
use crate::rules::{Position, Color, BoardStatus, legal_moves_of, rules_identity, rules_apply};
use crate::utils::rc_wrapper::{Arena, HashableRcRefCell, WeakHashableRcRefCell};

verus! {

broadcast use vstd::std_specs::hash::group_hash_axioms;

/// The handle by which a node is owned: by the store, and by each node that
/// has it for a child.
pub type NodeRef = HashableRcRefCell<Node>;

/// The handle by which a node is looked back at from its children.
pub type WNodeRef = WeakHashableRcRefCell<Node>;

/// One position of the search, with what the playouts through it have shown.
pub struct Node {
    pub(crate) position: Position,
    pub(crate) parents: Vec<WNodeRef>,
    pub children: Vec<NodeRef>,
    pub(crate) moves: Vec<String>,
    pub depth: usize,
    pub(crate) visits: u64,
    pub(crate) white_wins: u64,
    pub(crate) score: Score,
}

/// A node as the contracts see it. Edges are given by the slots they lead to;
/// `white_wins` counts half points.
pub struct NodeView {
    pub fen: Seq<char>,
    pub identity: u64,
    pub side: Color,
    pub status: BoardStatus,
    pub parents: Seq<int>,
    pub children: Seq<int>,
    pub moves: Seq<Seq<char>>,
    pub depth: nat,
    pub visits: nat,
    pub white_wins: nat,
    pub score: Score,
}

impl Node {
    pub open(crate) spec fn view(&self) -> NodeView {
        NodeView {
            fen: self.position.fen(),
            identity: self.position.identity(),
            side: self.position.side(),
            status: self.position.board_status(),
            parents: Seq::new(self.parents.len() as nat, |k: int| self.parents[k].index()),
            children: Seq::new(self.children.len() as nat, |k: int| self.children[k].index()),
            moves: self.moves.deep_view(),
            depth: self.depth as nat,
            visits: self.visits as nat,
            white_wins: self.white_wins as nat,
            score: self.score,
        }
    }

    /// The counts of a node fit together: White's half points are at most
    /// two a visit.
    pub open(crate) spec fn counted(&self) -> bool {
        &&& self.visits <= VISIT_LIMIT
        &&& self.white_wins <= 2 * self.visits
    }

    /// The figures of a node fit together: its counts do, and the score is
    /// infinite exactly before the first visit.
    pub open(crate) spec fn sound(&self) -> bool {
        &&& self.position.wf()
        &&& self.moves.len() == self.children.len()
        &&& self.counted()
        &&& (self.score is Infinite) == (self.visits == 0)
    }

    /// The two nodes are one position, joined to the same nodes.
    pub open(crate) spec fn same_links(&self, other: &Node) -> bool {
        &&& self.position == other.position
        &&& self.children == other.children
        &&& self.parents == other.parents
        &&& self.moves == other.moves
        &&& self.depth == other.depth
    }

    /// The position of the node.
    pub open(crate) spec fn place(&self) -> Position {
        self.position
    }

    /// The node is joined to no other.
    pub open(crate) spec fn bare(&self) -> bool {
        self.children.len() == 0 && self.parents.len() == 0 && self.moves.len() == 0
    }

    /// The two nodes differ at most in their back-references.
    pub open(crate) spec fn same_but_parents(&self, other: &Node) -> bool {
        &&& self.position == other.position
        &&& self.children == other.children
        &&& self.moves == other.moves
        &&& self.depth == other.depth
        &&& self.visits == other.visits
        &&& self.white_wins == other.white_wins
        &&& self.score == other.score
    }

    /// The view of a node just made for `position`.
    pub open(crate) spec fn new_view(position: Position, depth: usize) -> NodeView {
        NodeView {
            fen: position.fen(),
            identity: position.identity(),
            side: position.side(),
            status: position.board_status(),
            parents: Seq::empty(),
            children: Seq::empty(),
            moves: Seq::empty(),
            depth: depth as nat,
            visits: 0,
            white_wins: 0,
            score: Score::Infinite,
        }
    }

    /// A node for `position`, `depth` moves into the game, not yet visited
    /// and joined to no other.
    pub fn new(position: Position, depth: usize) -> (n: Node)
        requires
            position.wf(),
        ensures
            n.sound(),
            n@ == Node::new_view(position, depth),
            n.place() == position,
            n.bare(),
    {
        let n = Node {
            position,
            parents: Vec::new(),
            children: Vec::new(),
            moves: Vec::new(),
            depth,
            visits: 0,
            white_wins: 0,
            score: Score::Infinite,
        };
        assert(n@.parents =~= Seq::empty());
        assert(n@.children =~= Seq::empty());
        assert(n@.moves =~= Seq::empty());
        n
    }
}

/// The selection value of a node with these figures: more than any number
/// before the first visit, and after it the share of playouts that went well
/// for the side to move plus the term that favours the less visited. Parents
/// that were never visited count as one visit.
pub open spec fn score_of(white_wins: nat, visits: nat, parent_visits: nat, side: Color) -> Score {
    if visits == 0 {
        Score::Infinite
    } else {
        Score::Finite(uct(white_wins, visits, if parent_visits == 0 { 1 } else { parent_visits }, side) as u64)
    }
}

impl Node {
    /// The position of the node.
    pub fn position(&self) -> (p: &Position)
        ensures
            *p == self.place(),
    {
        &self.position
    }

    /// The number of playouts that went through the node.
    pub fn visits(&self) -> (v: u64)
        ensures
            v == self@.visits,
    {
        self.visits
    }

    /// The half points White earned in the playouts through the node.
    pub fn white_wins(&self) -> (w: u64)
        ensures
            w == self@.white_wins,
    {
        self.white_wins
    }

    /// The selection value as it was last worked out.
    pub fn score(&self) -> (s: Score)
        ensures
            s == self@.score,
    {
        self.score
    }

    /// The moves that lead to the children, each at the place of its child.
    pub fn moves(&self) -> (m: &Vec<String>)
        ensures
            m.deep_view() == self@.moves,
    {
        &self.moves
    }

    /// The back-references of the node.
    pub fn parents(&self) -> (p: &Vec<WNodeRef>)
        ensures
            p.len() == self@.parents.len(),
            forall|k: int| 0 <= k < p.len() ==> (#[trigger] p[k]).index() == self@.parents[k],
    {
        &self.parents
    }

    /// Whether the counts of the node fit together.
    pub fn is_counted(&self) -> (b: bool)
        ensures
            b == self.counted(),
    {
        self.visits <= VISIT_LIMIT && self.white_wins <= 2 * self.visits
    }

    /// Whether the node has children.
    pub fn _has_children(&self) -> (b: bool)
        ensures
            b == (self@.children.len() > 0),
    {
        self.children.len() > 0
    }

    /// Whether the game goes on from the node's position.
    pub fn _is_not_terminal(&self) -> (b: bool)
        ensures
            b == (self@.status is Ongoing),
    {
        match self.position.status() {
            BoardStatus::Ongoing => true,
            _ => false,
        }
    }

    /// The share of playouts through the node that went well for
    /// `color_to_play`, or for the side to move at the node where none is
    /// named. Zero before the first visit.
    pub fn get_win_ratio(&self, color_to_play: Option<Color>) -> (r: Ratio)
        requires
            self.counted(),
        ensures
            r == win_share(
                self@.white_wins,
                self@.visits,
                match color_to_play {
                    Some(c) => c,
                    None => self@.side,
                },
            ),
            r.den > 0,
            r.num <= r.den,
    {
        let side = match color_to_play {
            Some(c) => c,
            None => self.position.side_to_move(),
        };
        if self.visits == 0 {
            Ratio { num: 0, den: 1 }
        } else {
            match side {
                Color::White => Ratio { num: self.white_wins, den: 2 * self.visits },
                Color::Black => Ratio { num: 2 * self.visits - self.white_wins, den: 2 * self.visits },
            }
        }
    }

    /// The selection value of the node under `selection_policy`, where its
    /// parents were visited `parent_visits` times in all.
    pub fn get_score(&self, parent_visits: u64, selection_policy: SelectionPolicy) -> (s: Score)
        requires
            self.counted(),
            selection_policy is UCT,
        ensures
            s == score_of(self@.white_wins, self@.visits, parent_visits as nat, self@.side),
    {
        match selection_policy {
            SelectionPolicy::UCT => {
                if self.visits == 0 {
                    Score::Infinite
                } else {
                    let share = self.get_win_ratio(None);
                    let weight = if parent_visits == 0 { 1 } else { parent_visits };
                    assert(share.num * ONE / (share.den as int) <= ONE) by (nonlinear_arith)
                        requires
                            0 <= share.num <= share.den,
                            share.den > 0,
                    ;
                    assert(share.num * ONE <= 0xffff_ffff_ffff_ffff * ONE) by (nonlinear_arith)
                        requires
                            0 <= share.num <= 0xffff_ffff_ffff_ffff,
                    ;
                    let part = (share.num as u128 * ONE as u128 / share.den as u128) as u64;
                    let rest = exploration_of(weight, self.visits);
                    Score::Finite(part + rest)
                }
            },
            SelectionPolicy::AlphaZero => {
                // Kept away by the contract.
                Score::Infinite
            },
        }
    }
}

/// The store: every node of the search, each position once.
pub struct NodeStore {
    pub(crate) arena: Arena<Node>,
    pub(crate) index: HashMap<u64, usize>,
}

impl NodeStore {
    /// The number of slots, with or without a node.
    pub open(crate) spec fn slots(&self) -> int {
        self.arena.size()
    }

    /// Slot `i` holds a node.
    pub open(crate) spec fn is_node(&self, i: int) -> bool {
        self.arena.occupied(i)
    }

    /// The node in slot `i`.
    pub open(crate) spec fn node(&self, i: int) -> Node {
        self.arena.value(i)
    }

    /// `h` stands for a node of the store.
    pub open(crate) spec fn contains(&self, h: NodeRef) -> bool {
        self.arena.has(h)
    }

    /// The nodes of the store, by slot.
    pub open(crate) spec fn view(&self) -> Map<int, NodeView> {
        Map::new(|i: int| self.is_node(i), |i: int| self.node(i)@)
    }

    /// The graph of the store's nodes and their child edges.
    pub open(crate) spec fn child_graph(&self) -> Map<int, Seq<int>> {
        Map::new(|i: int| self.is_node(i), |i: int| self.node(i)@.children)
    }

    /// The graph of the store's nodes and their back-references.
    pub open(crate) spec fn parent_graph(&self) -> Map<int, Seq<int>> {
        Map::new(|i: int| self.is_node(i), |i: int| self.node(i)@.parents)
    }

    /// The `k`th child of the node in slot `i`.
    pub open(crate) spec fn child(&self, i: int, k: int) -> NodeRef {
        self.node(i).children[k]
    }

    /// The `k`th back-reference of the node in slot `i`.
    pub open(crate) spec fn parent(&self, i: int, k: int) -> WNodeRef {
        self.node(i).parents[k]
    }

    /// Every node is found under its identity, and nothing else is.
    pub open(crate) spec fn indexed(&self) -> bool {
        &&& forall|i: int|
            self.is_node(i) ==> self.index@.contains_key(#[trigger] self.node(i).position.identity())
                && self.index@[self.node(i).position.identity()] == i
        &&& forall|id: u64| #[trigger]
            self.index@.contains_key(id) ==> self.is_node(self.index@[id] as int) && self.node(
                self.index@[id] as int,
            ).position.identity() == id
    }

    /// Every handle kept in a node stands for a node.
    pub open(crate) spec fn linked(&self) -> bool {
        &&& forall|i: int, k: int|
            self.is_node(i) && 0 <= k < self.node(i).children.len() ==> self.arena.has(
                #[trigger] self.child(i, k),
            )
        &&& forall|i: int, k: int|
            self.is_node(i) && 0 <= k < self.node(i).parents.len() ==> self.arena.sees(
                #[trigger] self.parent(i, k),
            )
    }

    /// The store is in order but for its back-references.
    pub open(crate) spec fn forward(&self) -> bool {
        &&& self.arena.wf()
        &&& self.indexed()
        &&& forall|i: int, k: int|
            self.is_node(i) && 0 <= k < self.node(i).children.len() ==> self.arena.has(
                #[trigger] self.child(i, k),
            )
        &&& forall|i: int| self.is_node(i) ==> (#[trigger] self.node(i)).sound()
    }

    /// Every back-reference is the reverse of a child edge.
    pub open(crate) spec fn backed(&self) -> bool {
        forall|i: int, k: int|
            self.is_node(i) && 0 <= k < self.node(i).parents.len() ==> edge(
                self.child_graph(),
                (#[trigger] self.parent(i, k)).index(),
                i,
            )
    }

    /// The store is in order.
    pub open(crate) spec fn wf(&self) -> bool {
        &&& self.arena.wf()
        &&& self.indexed()
        &&& self.linked()
        &&& self.backed()
        &&& forall|i: int| self.is_node(i) ==> (#[trigger] self.node(i)).sound()
    }

    /// A store without nodes.
    pub fn new() -> (s: NodeStore)
        ensures
            s.wf(),
            s.slots() == 0,
            s@ == Map::<int, NodeView>::empty(),
    {
        let s = NodeStore { arena: Arena::new(), index: HashMap::new() };
        assert(s@ =~= Map::<int, NodeView>::empty());
        s
    }

    /// The arena that owns the nodes, to look at.
    pub fn arena(&self) -> (a: &Arena<Node>)
        ensures
            forall|h: NodeRef| a.has(h) == self.contains(h),
    {
        &self.arena
    }

    /// The handle of the node in slot `slot`, where there is one.
    pub fn handle_at(&self, slot: usize) -> (r: Option<NodeRef>)
        ensures
            r is Some <==> self.is_node(slot as int),
            r matches Some(h) ==> self.contains(h) && h.index() == slot,
    {
        if slot < self.arena.slots.len() && self.arena.slots[slot].value.is_some() {
            Some(HashableRcRefCell::at(&self.arena, slot))
        } else {
            None
        }
    }

    /// Whether `h` stands for a node of the store.
    pub fn has(&self, h: &NodeRef) -> (b: bool)
        ensures
            b == self.contains(*h),
    {
        self.arena.contains(h)
    }

    /// The node `h` stands for.
    pub fn get(&self, h: &NodeRef) -> (n: &Node)
        requires
            self.contains(*h),
        ensures
            *n == self.node(h.index()),
    {
        self.arena.get(h)
    }

    /// The node known under `identity`, if there is one.
    pub fn find(&self, identity: u64) -> (r: Option<NodeRef>)
        requires
            self.wf(),
        ensures
            match r {
                Some(h) => self.contains(h) && self.node(h.index())@.identity == identity,
                None => forall|i: int| self.is_node(i) ==> self.node(i)@.identity != identity,
            },
    {
        match self.index.get(&identity) {
            Some(slot) => {
                let slot = *slot;
                assert(self.index@.contains_key(identity));
                Some(HashableRcRefCell::at(&self.arena, slot))
            },
            None => {
                assert forall|i: int| self.is_node(i) implies self.node(i)@.identity != identity by {
                    assert(self.index@.contains_key(self.node(i).position.identity()));
                }
                None
            },
        }
    }

    /// Every handle that stood for a node of `old` stands for the same slot's
    /// node here.
    pub open(crate) spec fn keeps(&self, prev: &NodeStore) -> bool {
        forall|i: int| #[trigger]
            prev.is_node(i) ==> self.is_node(i) && self.arena.generation(i) == prev.arena.generation(i)
    }

    /// Puts a new node for `position` into the store.
    pub(crate) fn create(&mut self, position: Position, depth: usize) -> (h: NodeRef)
        requires
            old(self).wf(),
            position.wf(),
            forall|i: int| old(self).is_node(i) ==> old(self).node(i)@.identity != position.identity(),
        ensures
            final(self).wf(),
            final(self).contains(h),
            !old(self).is_node(h.index()),
            final(self).keeps(old(self)),
            final(self)@ == old(self)@.insert(h.index(), Node::new_view(position, depth)),
            final(self).node(h.index()).position == position,
            forall|i: int| #[trigger]
                final(self).is_node(i) ==> i == h.index() || (old(self).is_node(i) && final(self).node(
                    i,
                ) == old(self).node(i)),
    {
        let identity = position.get_hash();
        let node = Node::new(position, depth);
        let h = HashableRcRefCell::new(&mut self.arena, node);
        self.index.insert(identity, h.slot);
        proof {
            let old_self = old(self);
            assert forall|i: int| self.is_node(i) implies (#[trigger] self.node(i)).sound()
                && (i != h.index() ==> old_self.is_node(i) && self.node(i) == old_self.node(i)) by {
                if i != h.index() {
                    assert(self.arena.slot(i) == old_self.arena.slot(i));
                }
            }
            assert forall|i: int| old_self.is_node(i) implies self.is_node(i) && self.node(i)
                == old_self.node(i) && self.arena.generation(i) == old_self.arena.generation(i) by {
                assert(self.arena.slot(i) == old_self.arena.slot(i));
            }
            assert(self.indexed()) by {
                assert forall|i: int| self.is_node(i) implies self.index@.contains_key(
                    #[trigger] self.node(i).position.identity(),
                ) && self.index@[self.node(i).position.identity()] == i by {
                    if i != h.index() {
                        assert(old_self.index@.contains_key(old_self.node(i).position.identity()));
                    }
                }
                assert forall|id: u64| #[trigger] self.index@.contains_key(id) implies self.is_node(
                    self.index@[id] as int,
                ) && self.node(self.index@[id] as int).position.identity() == id by {
                    if id != identity {
                        assert(old_self.index@.contains_key(id));
                    }
                }
            }
            assert(self.linked()) by {
                assert forall|i: int, k: int|
                    self.is_node(i) && 0 <= k < self.node(i).children.len() implies self.arena.has(
                    #[trigger] self.child(i, k),
                ) by {
                    assert(i != h.index());
                    let c = old_self.child(i, k);
                    assert(old_self.arena.has(c));
                    assert(self.arena.slot(c.index()) == old_self.arena.slot(c.index()));
                }
                assert forall|i: int, k: int|
                    self.is_node(i) && 0 <= k < self.node(i).parents.len() implies self.arena.sees(
                    #[trigger] self.parent(i, k),
                ) by {
                    assert(i != h.index());
                    let p = old_self.parent(i, k);
                    assert(old_self.arena.sees(p));
                    assert(self.arena.slot(p.index()) == old_self.arena.slot(p.index()));
                }
            }
            assert(self.backed()) by {
                assert forall|i: int, k: int|
                    self.is_node(i) && 0 <= k < self.node(i).parents.len() implies edge(
                    self.child_graph(),
                    (#[trigger] self.parent(i, k)).index(),
                    i,
                ) by {
                    assert(i != h.index());
                    let p = old_self.parent(i, k).index();
                    assert(old_self.arena.sees(old_self.parent(i, k)));
                    assert(edge(old_self.child_graph(), p, i));
                    assert(self.arena.slot(p) == old_self.arena.slot(p));
                    assert(self.child_graph()[p] == old_self.child_graph()[p]);
                }
            }
            assert(self@ =~= old_self@.insert(h.index(), Node::new_view(position, depth)));
        }
        h
    }

    /// Some node is known under `identity`.
    pub open(crate) spec fn knows(&self, identity: u64) -> bool {
        exists|i: int| self.is_node(i) && (#[trigger] self.node(i))@.identity == identity
    }

    /// The store has the same nodes in the same slots as `old`.
    pub open(crate) spec fn same_nodes(&self, prev: &NodeStore) -> bool {
        &&& self.arena.size() == prev.arena.size()
        &&& self.index@ == prev.index@
        &&& forall|i: int|
            #![trigger self.is_node(i)]
            #![trigger prev.is_node(i)]
            #![trigger self.arena.generation(i)]
            #![trigger prev.arena.generation(i)]
            0 <= i < self.arena.size() ==> (self.is_node(i) <==> prev.is_node(i))
                && self.arena.generation(i) == prev.arena.generation(i)
    }

    /// The nodes of `m` after the node in slot `p` got the node in slot `c`
    /// for a child, by move `mv`.
    pub open spec fn attached(m: Map<int, NodeView>, p: int, c: int, mv: Seq<char>) -> Map<
        int,
        NodeView,
    > {
        let with_child = m.insert(
            p,
            NodeView { children: m[p].children.push(c), moves: m[p].moves.push(mv), ..m[p] },
        );
        with_child.insert(
            c,
            NodeView { parents: with_child[c].parents.push(p), ..with_child[c] },
        )
    }

    /// Makes `child` a child of `parent`, by move `mv`, and `parent` a parent
    /// of `child`.
    pub(crate) fn attach(&mut self, parent: &NodeRef, child: &NodeRef, mv: String)
        requires
            old(self).wf(),
            old(self).contains(*parent),
            old(self).contains(*child),
        ensures
            final(self).wf(),
            final(self).same_nodes(old(self)),
            final(self)@ == NodeStore::attached(old(self)@, parent.index(), child.index(), mv@),
            forall|i: int|
                final(self).is_node(i) ==> (#[trigger] final(self).node(i)).place() == old(self).node(
                    i,
                ).place(),
    {
        let ghost before = *self;
        match &mut self.arena.slots[parent.slot].value {
            Some(n) => {
                n.children.push(*child);
                n.moves.push(mv);
            },
            None => {},
        }
        let ghost between = *self;
        match &mut self.arena.slots[child.slot].value {
            Some(n) => {
                n.parents.push(parent.downgrade());
            },
            None => {},
        }
        proof {
            let p = parent.index();
            let c = child.index();
            assert(between.node(p).children@ == before.node(p).children@.push(*child));
            assert(between.node(p).moves@ == before.node(p).moves@.push(mv));
            assert(self.node(c).parents@ == between.node(c).parents@.push(parent.weak()));
            assert forall|i: int| 0 <= i < self.arena.size() implies self.is_node(i) == before.is_node(i)
                && #[trigger] self.arena.generation(i) == before.arena.generation(i) by {}
            assert forall|i: int| self.is_node(i) && i != p && i != c implies self.node(i)
                == before.node(i) by {}
            assert(between.node(p)@.children =~= before.node(p)@.children.push(c));
            assert(between.node(p)@.moves =~= before.node(p)@.moves.push(mv@)) by {
                assert(between.node(p).moves.deep_view() =~= before.node(p).moves.deep_view().push(mv@));
            }
            assert(between.node(p)@.parents =~= before.node(p)@.parents);
            assert(self.node(c)@.parents =~= between.node(c)@.parents.push(p));
            assert(self.node(c)@.children =~= between.node(c)@.children);
            assert(self.node(c)@.moves =~= between.node(c)@.moves);
            if p != c {
                assert(self.node(p) == between.node(p));
                assert(between.node(c) == before.node(c));
            }
            assert(between@ =~= before@.insert(
                p,
                NodeView {
                    children: before@[p].children.push(c),
                    moves: before@[p].moves.push(mv@),
                    ..before@[p]
                },
            ));
            assert(self@ =~= NodeStore::attached(before@, p, c, mv@));
            assert(self.arena.wf());
            assert forall|i: int| self.is_node(i) implies (#[trigger] self.node(i)).sound() by {
                assert(before.node(i).sound());
            }
            assert(self.indexed()) by {
                assert forall|i: int| self.is_node(i) implies self.index@.contains_key(
                    #[trigger] self.node(i).position.identity(),
                ) && self.index@[self.node(i).position.identity()] == i by {
                    assert(before.index@.contains_key(before.node(i).position.identity()));
                }
                assert forall|id: u64| #[trigger] self.index@.contains_key(id) implies self.is_node(
                    self.index@[id] as int,
                ) && self.node(self.index@[id] as int).position.identity() == id by {
                    assert(before.index@.contains_key(id));
                }
            }
            assert(self.linked()) by {
                assert forall|i: int, k: int|
                    self.is_node(i) && 0 <= k < self.node(i).children.len() implies self.arena.has(
                    #[trigger] self.child(i, k),
                ) by {
                    if k < before.node(i).children.len() {
                        assert(before.arena.has(before.child(i, k)));
                        assert(self.child(i, k) == before.child(i, k));
                    } else {
                        assert(i == p);
                        assert(self.child(i, k) == *child);
                    }
                }
                assert forall|i: int, k: int|
                    self.is_node(i) && 0 <= k < self.node(i).parents.len() implies self.arena.sees(
                    #[trigger] self.parent(i, k),
                ) by {
                    if k < before.node(i).parents.len() {
                        assert(before.arena.sees(before.parent(i, k)));
                        assert(self.parent(i, k) == before.parent(i, k));
                    } else {
                        assert(i == c);
                        assert(self.parent(i, k) == parent.weak());
                    }
                }
            }
            assert(self.backed()) by {
                assert forall|i: int, k: int|
                    self.is_node(i) && 0 <= k < self.node(i).parents.len() implies edge(
                    self.child_graph(),
                    (#[trigger] self.parent(i, k)).index(),
                    i,
                ) by {
                    if k < before.node(i).parents.len() {
                        let q = before.parent(i, k).index();
                        assert(self.parent(i, k) == before.parent(i, k));
                        assert(before.arena.sees(before.parent(i, k)));
                        assert(edge(before.child_graph(), q, i));
                        let j = choose|j: int|
                            0 <= j < before.child_graph()[q].len() && before.child_graph()[q][j] == i;
                        assert(self.child_graph()[q][j] == i);
                    } else {
                        assert(i == c);
                        assert(self.parent(i, k) == parent.weak());
                        let j = before.node(p).children.len() as int;
                        assert(self.child_graph()[p][j] == c);
                    }
                }
            }
        }
    }

    /// What `old` has become after a node for `position` was asked for and
    /// `h` was handed out: `h` stands for a node of that identity, the node
    /// that `old` knew under it where it knew one, and every node of `old`
    /// is still there.
    pub open(crate) spec fn granted(&self, prev: &NodeStore, position: Position, h: NodeRef) -> bool {
        &&& self.wf()
        &&& self.keeps(prev)
        &&& self.contains(h)
        &&& self.node(h.index())@.identity == position.identity()
        &&& prev.knows(position.identity()) ==> prev.contains(h) && prev.node(h.index())@.identity
            == position.identity() && forall|i: int| self.is_node(i) ==> prev.is_node(i)
        &&& !prev.knows(position.identity()) ==> !prev.is_node(h.index()) && self.node(
            h.index(),
        ).place() == position && forall|i: int| self.is_node(i) && i != h.index() ==> prev.is_node(i)
    }

    /// The node for `position`: the one the store has under its identity, or
    /// a new one, `depth` moves into the game, joined to no other.
    pub fn adopt(&mut self, position: Position, depth: usize) -> (h: NodeRef)
        requires
            old(self).wf(),
            position.wf(),
        ensures
            final(self).granted(old(self), position, h),
            old(self).knows(position.identity()) ==> *final(self) == *old(self),
            old(self).knows(position.identity()) ==> final(self)@ == old(self)@,
            !old(self).knows(position.identity()) ==> final(self)@ == old(self)@.insert(
                h.index(),
                Node::new_view(position, depth),
            ),
            forall|i: int| #[trigger]
                old(self).is_node(i) ==> final(self).node(i) == old(self).node(i),
    {
        match self.find(position.get_hash()) {
            Some(h) => {
                assert(self.knows(position.identity())) by {
                    assert(self.is_node(h.index()));
                }
                h
            },
            None => {
                assert(!self.knows(position.identity()));
                let h = self.create(position, depth);
                assert forall|i: int| #[trigger] old(self).is_node(i) implies self.node(i) == old(
                    self,
                ).node(i) by {
                    assert(self.is_node(i));
                }
                h
            },
        }
    }

    /// The node for `position` as a child of `parent`, by move `mv`: the
    /// node the store has under the position's identity, or a new one, one
    /// move deeper than `parent`. Either way `parent` becomes one of its
    /// parents.
    pub fn get_or_create(&mut self, position: Position, parent: &NodeRef, mv: String) -> (h: NodeRef)
        requires
            old(self).wf(),
            position.wf(),
            old(self).contains(*parent),
        ensures
            final(self).granted(old(self), position, h),
            old(self).knows(position.identity()) ==> final(self)@ == NodeStore::attached(
                old(self)@,
                parent.index(),
                h.index(),
                mv@,
            ),
            !old(self).knows(position.identity()) ==> final(self)@ == NodeStore::attached(
                old(self)@.insert(
                    h.index(),
                    Node::new_view(position, NodeStore::below(old(self)@[parent.index()].depth)),
                ),
                parent.index(),
                h.index(),
                mv@,
            ),
            forall|i: int|
                old(self).is_node(i) ==> (#[trigger] final(self).node(i)).place() == old(self).node(
                    i,
                ).place(),
    {
        let depth = self.get(parent).depth;
        let depth = if depth < usize::MAX { depth + 1 } else { depth };
        let h = self.adopt(position, depth);
        let ghost between = *self;
        assert(between.is_node(parent.index()));
        self.attach(parent, &h, mv);
        proof {
            assert(self.keeps(old(self))) by {
                assert forall|i: int| #[trigger] old(self).is_node(i) implies self.is_node(i)
                    && self.arena.generation(i) == old(self).arena.generation(i) by {
                    assert(between.is_node(i));
                }
            }
            assert(self.node(h.index())@.identity == position.identity()) by {
                assert(self@[h.index()].identity == between@[h.index()].identity);
            }
            assert(self.node(h.index()).place() == between.node(h.index()).place());
            assert forall|i: int| self.is_node(i) implies between.is_node(i) by {
                assert(self.arena.generation(i) == between.arena.generation(i));
            }
            assert(self.contains(h)) by {
                assert(self.arena.generation(h.index()) == between.arena.generation(h.index()));
            }
        }
        h
    }

    /// The depth of a node one move below a node at `depth`.
    pub open spec fn below(depth: nat) -> usize {
        if depth < usize::MAX {
            (depth + 1) as usize
        } else {
            usize::MAX
        }
    }

    /// Takes all back-references from the node `h` stands for.
    pub fn clear_parents(&mut self, h: &NodeRef)
        requires
            old(self).wf(),
            old(self).contains(*h),
        ensures
            final(self).wf(),
            final(self).same_nodes(old(self)),
            final(self)@ == old(self)@.insert(
                h.index(),
                NodeView { parents: Seq::empty(), ..old(self)@[h.index()] },
            ),
            forall|i: int|
                final(self).is_node(i) ==> (#[trigger] final(self).node(i)).place() == old(self).node(
                    i,
                ).place(),
    {
        let ghost before = *self;
        match &mut self.arena.slots[h.slot].value {
            Some(n) => {
                n.parents = Vec::new();
            },
            None => {},
        }
        proof {
            let c = h.index();
            assert forall|i: int| 0 <= i < self.arena.size() implies self.is_node(i) == before.is_node(i)
                && #[trigger] self.arena.generation(i) == before.arena.generation(i) by {}
            assert forall|i: int| self.is_node(i) && i != c implies self.node(i) == before.node(i) by {}
            assert(self.node(c)@.parents =~= Seq::empty());
            assert(self.node(c)@.children =~= before.node(c)@.children);
            assert(self@ =~= before@.insert(
                c,
                NodeView { parents: Seq::empty(), ..before@[c] },
            ));
            assert forall|i: int| self.is_node(i) implies (#[trigger] self.node(i)).sound() by {
                assert(before.node(i).sound());
            }
            assert(self.indexed()) by {
                assert forall|i: int| self.is_node(i) implies self.index@.contains_key(
                    #[trigger] self.node(i).position.identity(),
                ) && self.index@[self.node(i).position.identity()] == i by {
                    assert(before.index@.contains_key(before.node(i).position.identity()));
                }
                assert forall|id: u64| #[trigger] self.index@.contains_key(id) implies self.is_node(
                    self.index@[id] as int,
                ) && self.node(self.index@[id] as int).position.identity() == id by {
                    assert(before.index@.contains_key(id));
                }
            }
            assert(self.linked()) by {
                assert forall|i: int, k: int|
                    self.is_node(i) && 0 <= k < self.node(i).children.len() implies self.arena.has(
                    #[trigger] self.child(i, k),
                ) by {
                    assert(before.arena.has(before.child(i, k)));
                }
                assert forall|i: int, k: int|
                    self.is_node(i) && 0 <= k < self.node(i).parents.len() implies self.arena.sees(
                    #[trigger] self.parent(i, k),
                ) by {
                    assert(before.arena.sees(before.parent(i, k)));
                }
            }
            assert(self.backed()) by {
                assert forall|i: int, k: int|
                    self.is_node(i) && 0 <= k < self.node(i).parents.len() implies edge(
                    self.child_graph(),
                    (#[trigger] self.parent(i, k)).index(),
                    i,
                ) by {
                    let q = before.parent(i, k).index();
                    assert(before.arena.sees(before.parent(i, k)));
                    assert(edge(before.child_graph(), q, i));
                    assert(self.child_graph()[q] =~= before.child_graph()[q]);
                }
            }
        }
    }

    /// The text of a node's position is that of its view.
    pub(crate) proof fn lemma_fen_of_place(&self, i: int)
        ensures
            self.node(i)@.fen == self.node(i).place().fen(),
            self.node(i)@.identity == self.node(i).place().identity(),
    {
    }

    /// No two nodes of a store have one identity.
    pub proof fn lemma_one_node_per_identity(&self, i: int, j: int)
        requires
            self.wf(),
            self.is_node(i),
            self.is_node(j),
            self.node(i)@.identity == self.node(j)@.identity,
        ensures
            i == j,
    {
        assert(self.index@.contains_key(self.node(i).position.identity()));
        assert(self.index@.contains_key(self.node(j).position.identity()));
    }

    /// Asked twice for positions of one identity, whatever the moves that
    /// led to them, the store hands out one node.
    pub proof fn lemma_same_identity_same_node(
        first: &NodeStore,
        second: &NodeStore,
        third: &NodeStore,
        p: Position,
        q: Position,
        g: NodeRef,
        h: NodeRef,
    )
        requires
            second.granted(first, p, g),
            third.granted(second, q, h),
            p.identity() == q.identity(),
        ensures
            g == h,
            forall|i: int| third.is_node(i) <==> second.is_node(i),
    {
        assert(second.knows(q.identity())) by {
            assert(second.is_node(g.index()));
        }
        second.lemma_one_node_per_identity(g.index(), h.index());
        assert forall|i: int| third.is_node(i) <==> second.is_node(i) by {
            if second.is_node(i) {
                assert(third.is_node(i));
            }
        }
    }
}

/// What bounds a search.
pub struct TreeParams {
    pub(crate) max_search_depth: usize,
    pub(crate) n_cutoff_moves: usize,
    pub(crate) max_search_time: u64,
    pub(crate) max_iterations: u64,
}

/// The search tree of one game: the store and the node of the position the
/// game has come to, the head.
pub struct Tree {
    pub(crate) nodes: NodeStore,
    pub(crate) head: NodeRef,
    pub(crate) params: TreeParams,
}

/// The longest a search goes on, in milliseconds.
pub const MAX_SEARCH_TIME: u64 = 5000;

/// The most moves a playout makes.
pub const CUTOFF_MOVES: usize = 200;

impl Tree {
    /// The store of the tree.
    pub open(crate) spec fn store(&self) -> NodeStore {
        self.nodes
    }

    /// The head of the tree.
    pub open(crate) spec fn head(&self) -> NodeRef {
        self.head
    }

    /// The text of the position the game has come to.
    pub open(crate) spec fn fen(&self) -> Seq<char> {
        self.nodes.node(self.head.index())@.fen
    }

    /// What bounds a search of the tree.
    pub open(crate) spec fn bounds(&self) -> TreeParams {
        self.params
    }

    /// The tree with another time for a search and another number of rounds
    /// it may make.
    pub open(crate) spec fn with_budget(self, milliseconds: u64, rounds: u64) -> Tree {
        Tree {
            params: TreeParams {
                max_search_time: milliseconds,
                max_iterations: rounds,
                ..self.params
            },
            ..self
        }
    }

    /// How many moves below the head the search makes new nodes.
    pub open(crate) spec fn max_search_depth(&self) -> usize {
        self.params.max_search_depth
    }

    /// The most moves a playout makes.
    pub open(crate) spec fn cutoff(&self) -> usize {
        self.params.n_cutoff_moves
    }

    /// The longest a search goes on, in milliseconds.
    pub open(crate) spec fn search_time(&self) -> u64 {
        self.params.max_search_time
    }

    /// The most rounds a search makes. It makes one where this is none.
    pub open(crate) spec fn max_rounds(&self) -> u64 {
        self.params.max_iterations
    }

    /// The depth from which on the search makes no new nodes.
    pub open(crate) spec fn depth_limit(&self) -> int {
        self.params.max_search_depth + self.nodes.node(self.head.index()).depth
    }

    /// The node in slot `p` has no children, or one for each legal move of
    /// its position, in the rules engine's order, each known under the
    /// identity of the position that the move leads to.
    pub open(crate) spec fn by_the_rules(&self, p: int) -> bool {
        let n = self.nodes.node(p)@;
        n.children.len() > 0 ==> n.moves == legal_moves_of(n.fen) && forall|k: int|
            0 <= k < n.children.len() ==> (#[trigger] self.nodes.node(n.children[k]))@.identity
                == rules_identity(rules_apply(n.fen, n.moves[k]))
    }

    /// Every child but the head looks back at each of its parents.
    pub open(crate) spec fn looked_back(&self) -> bool {
        forall|p: int, k: int|
            self.nodes.is_node(p) && 0 <= k < self.nodes.node(p).children.len() && (
            #[trigger] self.nodes.child(p, k)).index() != self.head.index()
                ==> self.nodes.node(self.nodes.child(p, k).index())@.parents.contains(p)
    }

    /// The head reaches every node along child edges.
    pub open(crate) spec fn all_reached(&self) -> bool {
        forall|i: int| #[trigger]
            self.nodes.is_node(i) ==> reaches(self.nodes.child_graph(), self.head.index(), i)
    }

    /// The tree is in order: so is its store; the head is a node of it, has
    /// no back-references and reaches every node; every other node looks back
    /// at each of its parents; and children follow the rules.
    pub open(crate) spec fn wf(&self) -> bool {
        &&& self.nodes.wf()
        &&& self.nodes.contains(self.head)
        &&& self.nodes.node(self.head.index()).parents.len() == 0
        &&& self.all_reached()
        &&& self.looked_back()
        &&& forall|p: int| #[trigger] self.nodes.is_node(p) ==> self.by_the_rules(p)
    }

    /// Whatever the moves that were made: the head reaches every node of a
    /// tree in order along child edges, and has no back-references.
    pub proof fn lemma_all_reached(&self)
        requires
            self.wf(),
        ensures
            forall|i: int| #[trigger]
                self.store().is_node(i) ==> reaches(self.store().child_graph(), self.head().index(), i),
            self.store().node(self.head().index())@.parents.len() == 0,
    {
    }

    /// Every node of a tree in order but the head has a back-reference, and
    /// each of its back-references leads to a node.
    pub proof fn lemma_looked_back(&self, i: int)
        requires
            self.wf(),
            self.store().is_node(i),
            i != self.head().index(),
        ensures
            self.store().node(i)@.parents.len() > 0,
            forall|k: int|
                0 <= k < self.store().node(i)@.parents.len() ==> self.store().is_node(
                    #[trigger] self.store().node(i)@.parents[k],
                ),
    {
        let g = self.nodes.child_graph();
        let h = self.head.index();
        assert(reaches(g, h, i));
        let p = choose|p: Seq<int>| crate::mcts::graph::is_walk(g, p) && p[0] == h && p.last() == i;
        let k = p.len() - 2;
        assert(p.len() >= 2);
        assert(edge(g, p[k], p[k + 1]));
        let q = p[k];
        let j = choose|j: int| 0 <= j < g[q].len() && g[q][j] == i;
        assert(self.nodes.child(q, j).index() == i);
        assert(self.nodes.node(i)@.parents.contains(q));
        assert forall|k: int| 0 <= k < self.nodes.node(i)@.parents.len() implies self.nodes.is_node(
            #[trigger] self.nodes.node(i)@.parents[k],
        ) by {
            assert(self.nodes.arena.sees(self.nodes.parent(i, k)));
        }
    }

    /// A tree for a game that stands at `initial_board`, to be searched
    /// `max_search_depth` moves deep.
    pub fn new(initial_board: Position, max_search_depth: usize) -> (t: Tree)
        requires
            initial_board.wf(),
        ensures
            t.wf(),
            t.fen() == initial_board.fen(),
            t.max_search_depth() == max_search_depth,
            t.cutoff() == CUTOFF_MOVES,
            t.search_time() == MAX_SEARCH_TIME,
            t.max_rounds() == u64::MAX,
            t.store()@ == Map::<int, NodeView>::empty().insert(
                t.head().index(),
                Node::new_view(initial_board, 0),
            ),
    {
        let params = TreeParams {
            max_search_depth,
            n_cutoff_moves: CUTOFF_MOVES,
            max_search_time: MAX_SEARCH_TIME,
            max_iterations: u64::MAX,
        };
        let mut nodes = NodeStore::new();
        assert(!nodes.knows(initial_board.identity()));
        let head = nodes.adopt(initial_board, 0);
        let t = Tree { nodes, head, params };
        proof {
            assert forall|i: int| #[trigger] t.nodes.is_node(i) implies i == head.index() by {
                assert(t.nodes@.dom().contains(i));
            }
            assert(t.nodes.node(head.index())@ == Node::new_view(initial_board, 0)) by {
                assert(t.nodes@[head.index()] == Node::new_view(initial_board, 0));
            }
            assert(t.nodes.node(head.index()).parents.len() == 0) by {
                assert(t.nodes.node(head.index())@.parents.len() == 0);
            }
            assert(t.nodes.node(head.index()).children.len() == 0) by {
                assert(t.nodes.node(head.index())@.children.len() == 0);
            }
            lemma_reaches_self(t.nodes.child_graph(), head.index());
        }
        t
    }

    /// The node of the position the game has come to.
    pub fn head_node(&self) -> (h: NodeRef)
        ensures
            h == self.head(),
    {
        self.head
    }

    /// The node `h` stands for.
    pub fn node(&self, h: &NodeRef) -> (n: &Node)
        requires
            self.store().contains(*h),
        ensures
            *n == self.store().node(h.index()),
    {
        self.nodes.get(h)
    }

    /// The arena that owns the nodes, to look at.
    pub fn arena(&self) -> (a: &Arena<Node>)
        ensures
            forall|h: NodeRef| a.has(h) == self.store().contains(h),
    {
        self.nodes.arena()
    }

    /// The handle of the node in slot `slot`, where there is one.
    pub fn handle_at(&self, slot: usize) -> (r: Option<NodeRef>)
        ensures
            r is Some <==> self.store().is_node(slot as int),
            r matches Some(h) ==> self.store().contains(h) && h.index() == slot,
    {
        self.nodes.handle_at(slot)
    }

    /// Whether `h` stands for a node of the tree.
    pub fn has_node(&self, h: &NodeRef) -> (b: bool)
        ensures
            b == self.store().contains(*h),
    {
        self.nodes.arena.contains(h)
    }

    /// The position the game has come to.
    pub fn position(&self) -> (p: &Position)
        requires
            self.wf(),
        ensures
            p.wf(),
            p.fen() == self.fen(),
    {
        assert(self.nodes.node(self.head.index()).sound());
        &self.nodes.get(&self.head).position
    }

    /// Sets the time a search may take, in milliseconds, and the number of
    /// rounds it may make at most.
    pub fn set_budget(&mut self, milliseconds: u64, rounds: u64)
        ensures
            *final(self) == old(self).with_budget(milliseconds, rounds),
    {
        self.params.max_search_time = milliseconds;
        self.params.max_iterations = rounds;
    }
}

} // verus!
