//! Actors: the players' and bots' characters, their turn budget, and their
//! cards.

use vstd::prelude::*;
use crate::math::Vec3;
use crate::abilities::Abilities;
use crate::chance::shuffle_ids;

verus! {

/// Who moves an actor.
#[derive(Debug, Clone, Copy, PartialEq, Eq, Hash, PartialOrd, Ord, Structural)]
pub enum Controller {
    Player(u64),
    Bot,
}

impl Default for Controller {
    fn default() -> (r: Self)
        ensures
            r == Controller::Bot,
    {
        Controller::Bot
    }
}

/// What an actor may still do this turn.
#[derive(Debug, Clone, Copy, PartialEq, Eq, Structural)]
pub struct TurnResources {
    pub abilities: usize,
    pub _bonus_actions: usize,
    pub _movement: usize,
}

impl Default for TurnResources {
    fn default() -> (r: Self)
        ensures
            r == (TurnResources { abilities: 0, _bonus_actions: 0, _movement: 0 }),
    {
        TurnResources { abilities: 0, _bonus_actions: 0, _movement: 0 }
    }
}

/// The budget of a fresh turn: one ability, one bonus action, ten moves.
pub open spec fn fresh_turn() -> TurnResources {
    TurnResources { abilities: 1, _bonus_actions: 1, _movement: 10 }
}

/// The cards an actor holds in hand, still has to draw, and has thrown away.
pub struct CardHolder {
    hand: Vec<u64>,
    cards: Vec<u64>,
    trash: Vec<u64>,
}

/// Abstract contents of a card holder.
pub struct CardHolderView {
    pub hand: Seq<u64>,
    pub cards: Seq<u64>,
    pub trash: Seq<u64>,
}

impl View for CardHolder {
    type V = CardHolderView;

    closed spec fn view(&self) -> CardHolderView {
        CardHolderView { hand: self.hand@, cards: self.cards@, trash: self.trash@ }
    }
}

impl Default for CardHolder {
    fn default() -> (r: Self)
        ensures
            r@.hand == Seq::<u64>::empty(),
            r@.cards == Seq::<u64>::empty(),
            r@.trash == Seq::<u64>::empty(),
    {
        CardHolder { hand: Vec::new(), cards: Vec::new(), trash: Vec::new() }
    }
}

/// The last `k` cards of the pile, top (last) first.
pub open spec fn drawn_from(cards: Seq<u64>, k: nat) -> Seq<u64> {
    cards.subrange(cards.len() - k, cards.len() as int).reverse()
}

impl CardHolder {
    /// A holder with the given pile to draw from, top card last, and empty
    /// hand and trash.
    pub fn with_cards(cards: Vec<u64>) -> (r: Self)
        ensures
            r@.hand == Seq::<u64>::empty(),
            r@.cards == cards@,
            r@.trash == Seq::<u64>::empty(),
    {
        CardHolder { hand: Vec::new(), cards, trash: Vec::new() }
    }

    /// Meant to move the card at `index` of the hand to the trash; as
    /// written it returns at once whenever `index <= hand.len()`, and any
    /// larger index makes the removal panic, so it never changes anything.
    pub fn trash_card(&mut self, index: usize)
        requires
            index <= old(self)@.hand.len(),
        ensures
            final(self)@ == old(self)@,
    {
        if self.hand.len() >= index {
            return;
        }
        let card = self.hand.remove(index);
        self.trash.push(card);
    }

    /// A shuffled pile holding four copies of every card of `catalog` that
    /// has no unique id (`catalog` lists each card's id and whether it has
    /// one).
    pub fn test_data(catalog: &Vec<(u64, bool)>) -> (r: Self)
        ensures
            r@.hand == Seq::<u64>::empty(),
            r@.trash == Seq::<u64>::empty(),
            ({
                let ids = catalog@.filter(|c: (u64, bool)| !c.1).map_values(|c: (u64, bool)| c.0);
                r@.cards.to_multiset() == (ids + ids + ids + ids).to_multiset()
            }),
    {
        let ghost ids = catalog@.filter(|c: (u64, bool)| !c.1).map_values(|c: (u64, bool)| c.0);
        let mut cards: Vec<u64> = Vec::new();
        let mut i: usize = 0;
        while i < catalog.len()
            invariant
                i <= catalog@.len(),
                cards@ == catalog@.subrange(0, i as int).filter(|c: (u64, bool)| !c.1).map_values(|c: (u64, bool)| c.0),
            decreases catalog@.len() - i,
        {
            let ghost before = catalog@.subrange(0, i as int);
            proof {
                assert(catalog@.subrange(0, i + 1) =~= before.push(catalog@[i as int]));
                reveal(Seq::filter);
                let next = before.push(catalog@[i as int]);
                assert(next.drop_last() =~= before);
                assert(next.last() == catalog@[i as int]);
            }
            if !catalog[i].1 {
                cards.push(catalog[i].0);
            }
            proof {
                assert(cards@ =~= catalog@.subrange(0, i + 1).filter(|c: (u64, bool)| !c.1).map_values(|c: (u64, bool)| c.0));
            }
            i = i + 1;
        }
        proof {
            assert(catalog@.subrange(0, catalog@.len() as int) =~= catalog@);
        }
        let mut all: Vec<u64> = Vec::new();
        let mut copy: usize = 0;
        while copy < 4
            invariant
                copy <= 4,
                cards@ == ids,
                all@ == if copy == 0 { Seq::empty() } else if copy == 1 { ids } else if copy == 2 { ids + ids } else if copy == 3 { ids + ids + ids } else { ids + ids + ids + ids },
            decreases 4 - copy,
        {
            let ghost before = all@;
            let mut j: usize = 0;
            while j < cards.len()
                invariant
                    j <= cards@.len(),
                    all@ == before + cards@.subrange(0, j as int),
                decreases cards@.len() - j,
            {
                all.push(cards[j]);
                proof {
                    assert(all@ =~= before + cards@.subrange(0, j + 1));
                }
                j = j + 1;
            }
            proof {
                assert(cards@.subrange(0, cards@.len() as int) =~= cards@);
                assert(all@ =~= before + ids);
            }
            copy = copy + 1;
        }
        shuffle_ids(&mut all);
        CardHolder { hand: Vec::new(), cards: all, trash: Vec::new() }
    }

    /// The cards in hand, in order.
    pub fn hand(&self) -> (r: Vec<u64>)
        ensures
            r@ == self@.hand,
    {
        self.hand.clone()
    }

    /// The card at `index` of the hand.
    pub fn check_hand(&self, index: usize) -> (r: Option<u64>)
        ensures
            r == if index < self@.hand.len() {
                Some(self@.hand[index as int])
            } else {
                None
            },
    {
        if index < self.hand.len() {
            Some(self.hand[index])
        } else {
            None
        }
    }

    /// Draws up to `amount` cards from the top of the pile into the hand and
    /// returns them in the order drawn.
    pub fn draw(&mut self, amount: usize) -> (r: Vec<u64>)
        ensures
            ({
                let k = if amount <= old(self)@.cards.len() { amount as nat } else { old(self)@.cards.len() };
                &&& r@ == drawn_from(old(self)@.cards, k)
                &&& final(self)@.cards == old(self)@.cards.subrange(0, old(self)@.cards.len() - k)
                &&& final(self)@.hand == old(self)@.hand + r@
                &&& final(self)@.trash == old(self)@.trash
            }),
    {
        let ghost start = self@;
        let mut data: Vec<u64> = Vec::new();
        let mut i: usize = 0;
        while i < amount
            invariant_except_break
                i <= amount,
                i <= start.cards.len(),
                self.cards@ == start.cards.subrange(0, start.cards.len() - i),
                data@ == drawn_from(start.cards, i as nat),
                self.hand@ == start.hand + data@,
                self.trash@ == start.trash,
            ensures
                ({
                    let k = if amount <= start.cards.len() { amount as nat } else { start.cards.len() };
                    &&& self.cards@ == start.cards.subrange(0, start.cards.len() - k)
                    &&& data@ == drawn_from(start.cards, k)
                    &&& self.hand@ == start.hand + data@
                    &&& self.trash@ == start.trash
                }),
            decreases amount - i,
        {
            let card = match self.cards.pop() {
                Some(card) => card,
                None => {
                    break;
                },
            };
            proof {
                let n = start.cards.len() - i;
                assert(card == start.cards[n - 1]);
                assert(drawn_from(start.cards, (i + 1) as nat) =~= drawn_from(start.cards, i as nat).push(card));
                assert(self.cards@ =~= start.cards.subrange(0, n - 1));
            }
            data.push(card);
            self.hand.push(card);
            proof {
                assert(self.hand@ =~= start.hand + data@);
            }
            i = i + 1;
        }
        data
    }
}

/// Drawing never creates or loses a card: the hand and the pile together
/// hold the same cards before and after.
pub proof fn lemma_draw_keeps_cards(before: CardHolderView, after: CardHolderView, drawn: Seq<u64>, k: nat)
    requires
        k <= before.cards.len(),
        drawn == drawn_from(before.cards, k),
        after.cards == before.cards.subrange(0, before.cards.len() - k),
        after.hand == before.hand + drawn,
    ensures
        (after.hand + after.cards).to_multiset() == (before.hand + before.cards).to_multiset(),
{
    let top = before.cards.subrange(before.cards.len() - k, before.cards.len() as int);
    assert(before.cards =~= after.cards + top);
    vstd::seq_lib::lemma_multiset_commutative(before.hand, before.cards);
    vstd::seq_lib::lemma_multiset_commutative(after.cards, top);
    vstd::seq_lib::lemma_multiset_commutative(after.hand, after.cards);
    vstd::seq_lib::lemma_multiset_commutative(before.hand, drawn);
    top.lemma_reverse_to_multiset();
    assert(drawn == top.reverse());
}

/// A character in the dungeon.
pub struct Actor {
    pub name: String,
    pub controller: Controller,
    pub position: Vec3,
    pub health: i32,
    pub base_movement: u32,
    pub abilities: Abilities,
    pub resources: TurnResources,
    pub cards: CardHolder,
}

impl Actor {
    /// Gives the actor the budget of a fresh turn.
    pub fn reset_turn_resources(&mut self)
        ensures
            final(self).resources == fresh_turn(),
            final(self).name == old(self).name,
            final(self).controller == old(self).controller,
            final(self).position == old(self).position,
            final(self).health == old(self).health,
            final(self).base_movement == old(self).base_movement,
            final(self).abilities@ == old(self).abilities@,
            final(self).cards@ == old(self).cards@,
    {
        self.resources = TurnResources { abilities: 1, _bonus_actions: 1, _movement: 10 };
    }
}

} // verus!
