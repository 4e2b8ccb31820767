//! A plain tally of the games played through a position.

use vstd::prelude::*;

verus! {

/// How a game ended.
#[derive(Debug, Clone, Copy, PartialEq, Eq, Structural)]
pub enum GameResult {
    WhiteCheckmates,
    WhiteResigns,
    BlackCheckmates,
    BlackResigns,
    Stalemate,
    DrawAccepted,
    DrawDeclared,
}

/// A position, named by its hash, with the games played through it counted.
pub struct Node<'a> {
    hash: &'a str,
    visits: u32,
    wins: u32,
    draws: u32,
    children: Vec<Node<'a>>,
}

/// Whether White won a game that ended as `outcome`.
pub open spec fn white_won(outcome: GameResult) -> bool {
    outcome is WhiteCheckmates || outcome is BlackResigns
}

/// Whether nobody won a game that ended as `outcome`.
pub open spec fn drawn(outcome: GameResult) -> bool {
    outcome is Stalemate || outcome is DrawAccepted || outcome is DrawDeclared
}

impl<'a> Node<'a> {
    /// The games counted.
    pub closed spec fn visits(&self) -> nat {
        self.visits as nat
    }

    /// The games White won.
    pub closed spec fn wins(&self) -> nat {
        self.wins as nat
    }

    /// The games nobody won.
    pub closed spec fn draws(&self) -> nat {
        self.draws as nat
    }

    /// The hash of the position.
    pub closed spec fn hash(&self) -> Seq<char> {
        self.hash@
    }

    /// The number of children.
    pub closed spec fn degree(&self) -> nat {
        self.children.len() as nat
    }

    /// The children, in the order in which they were given.
    pub closed spec fn kids(&self) -> Seq<Node<'a>> {
        self.children@
    }

    /// No more games were won or drawn than were counted, and there is room
    /// to count another.
    pub closed spec fn wf(&self) -> bool {
        self.wins + self.draws <= self.visits
    }

    /// A node for the position of hash `hash`, with nothing counted.
    pub fn new(hash: &'a str) -> (n: Node<'a>)
        ensures
            n.wf(),
            n.hash() == hash@,
            n.visits() == 0,
            n.wins() == 0,
            n.draws() == 0,
            n.degree() == 0,
            n.kids() == Seq::<Node<'a>>::empty(),
    {
        Node { hash, visits: 0, wins: 0, draws: 0, children: Vec::new() }
    }

    /// Counts a game that ended as `outcome`.
    pub fn update_statistics(&mut self, outcome: GameResult)
        requires
            old(self).wf(),
            old(self).visits() < u32::MAX,
        ensures
            final(self).wf(),
            final(self).visits() == old(self).visits() + 1,
            final(self).wins() == old(self).wins() + if white_won(outcome) { 1nat } else { 0nat },
            final(self).draws() == old(self).draws() + if drawn(outcome) { 1nat } else { 0nat },
            final(self).hash() == old(self).hash(),
            final(self).degree() == old(self).degree(),
            final(self).kids() == old(self).kids(),
    {
        match outcome {
            GameResult::WhiteCheckmates | GameResult::BlackResigns => {
                self.wins = self.wins + 1;
            },
            GameResult::Stalemate | GameResult::DrawAccepted | GameResult::DrawDeclared => {
                self.draws = self.draws + 1;
            },
            GameResult::WhiteResigns | GameResult::BlackCheckmates => {},
        }
        self.visits = self.visits + 1;
    }

    /// Makes `child` the last child of the node.
    pub fn append(&mut self, child: Node<'a>)
        ensures
            final(self).kids() == old(self).kids().push(child),
            final(self).degree() == old(self).degree() + 1,
            final(self).visits() == old(self).visits(),
            final(self).wins() == old(self).wins(),
            final(self).draws() == old(self).draws(),
            final(self).hash() == old(self).hash(),
            final(self).wf() == old(self).wf(),
    {
        self.children.push(child);
    }

    /// The games counted.
    pub fn get_visits(&self) -> (v: u32)
        ensures
            v == self.visits(),
    {
        self.visits
    }

    /// The games White won.
    pub fn get_wins(&self) -> (v: u32)
        ensures
            v == self.wins(),
    {
        self.wins
    }

    /// The games nobody won.
    pub fn get_draws(&self) -> (v: u32)
        ensures
            v == self.draws(),
    {
        self.draws
    }
}

} // verus!
