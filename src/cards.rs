use vstd::prelude::*;

verus! {

/// The five character identities, plus a sentinel for a card whose identity is not known.
#[derive(Debug, Copy, Clone, PartialEq, Eq, Structural, Hash, PartialOrd, Ord)]
pub enum Card {
    Unknown,
    Assassin,
    Ambassador,
    Captain,
    Contessa,
    Duke,
}

/// Position of a card in the total order of cards.
pub open spec fn card_rank(c: Card) -> int {
    match c {
        Card::Unknown => 0,
        Card::Assassin => 1,
        Card::Ambassador => 2,
        Card::Captain => 3,
        Card::Contessa => 4,
        Card::Duke => 5,
    }
}

pub fn rank_of(c: Card) -> (r: u8)
    ensures
        r as int == card_rank(c),
{
    match c {
        Card::Unknown => 0,
        Card::Assassin => 1,
        Card::Ambassador => 2,
        Card::Captain => 3,
        Card::Contessa => 4,
        Card::Duke => 5,
    }
}

/// Index at which `c` goes into `s` so that it follows every card not above it.
pub open spec fn insert_pos(s: Seq<Card>, c: Card) -> nat
    decreases s.len(),
{
    if s.len() == 0 || card_rank(s[0]) > card_rank(c) {
        0
    } else {
        1 + insert_pos(s.drop_first(), c)
    }
}

/// `s` with `c` added in order: for a sorted `s`, the sorted sequence of `s` and `c`.
pub open spec fn insert_sorted(s: Seq<Card>, c: Card) -> Seq<Card> {
    s.insert(insert_pos(s, c) as int, c)
}

/// The cards of `s` come in card order.
pub open spec fn is_sorted(s: Seq<Card>) -> bool {
    forall|i: int, j: int| 0 <= i < j < s.len() ==> card_rank(s[i]) <= card_rank(s[j])
}

proof fn lemma_insert_pos_facts(s: Seq<Card>, c: Card)
    ensures
        insert_pos(s, c) <= s.len(),
        forall|j: int| 0 <= j < insert_pos(s, c) ==> card_rank(#[trigger] s[j]) <= card_rank(c),
        insert_pos(s, c) < s.len() ==> card_rank(s[insert_pos(s, c) as int]) > card_rank(c),
    decreases s.len(),
{
    if s.len() > 0 && card_rank(s[0]) <= card_rank(c) {
        lemma_insert_pos_facts(s.drop_first(), c);
        assert forall|j: int| 0 <= j < insert_pos(s, c) implies card_rank(#[trigger] s[j]) <= card_rank(c) by {
            if j > 0 {
                assert(s[j] == s.drop_first()[j - 1]);
            }
        }
    }
}

/// Adding a card in order to a sorted sequence keeps it sorted.
pub proof fn lemma_insert_sorted_sorted(s: Seq<Card>, c: Card)
    requires
        is_sorted(s),
    ensures
        is_sorted(insert_sorted(s, c)),
{
    lemma_insert_pos_facts(s, c);
    let k = insert_pos(s, c) as int;
    let t = insert_sorted(s, c);
    assert forall|i: int, j: int| 0 <= i < j < t.len() implies card_rank(t[i]) <= card_rank(t[j]) by {
        if j < k {
            assert(t[i] == s[i] && t[j] == s[j]);
        } else if j == k {
            assert(t[i] == s[i]);
        } else if i < k {
            assert(t[i] == s[i] && t[j] == s[j - 1]);
            assert(card_rank(s[i]) <= card_rank(c));
            assert(card_rank(s[k]) > card_rank(c));
            if j - 1 > k {
                assert(card_rank(s[k]) <= card_rank(s[j - 1]));
            }
        } else if i == k {
            assert(t[j] == s[j - 1]);
            assert(card_rank(s[k]) > card_rank(c));
            if j - 1 > k {
                assert(card_rank(s[k]) <= card_rank(s[j - 1]));
            }
        } else {
            assert(t[i] == s[i - 1] && t[j] == s[j - 1]);
        }
    }
}

/// `s` without the first occurrence of `c` (unchanged when `c` does not occur).
pub open spec fn remove_first(s: Seq<Card>, c: Card) -> Seq<Card>
    decreases s.len(),
{
    if s.len() == 0 {
        s
    } else if s[0] == c {
        s.drop_first()
    } else {
        seq![s[0]] + remove_first(s.drop_first(), c)
    }
}

/// Number of copies of `c` in `s`.
pub open spec fn count_of(s: Seq<Card>, c: Card) -> nat
    decreases s.len(),
{
    if s.len() == 0 {
        0
    } else {
        (if s.last() == c { 1nat } else { 0nat }) + count_of(s.drop_last(), c)
    }
}

proof fn lemma_insert_pos(s: Seq<Card>, c: Card, i: int)
    requires
        0 <= i <= s.len(),
        forall|j: int| 0 <= j < i ==> card_rank(#[trigger] s[j]) <= card_rank(c),
        i == s.len() || card_rank(s[i]) > card_rank(c),
    ensures
        insert_pos(s, c) == i,
    decreases s.len(),
{
    if s.len() > 0 && i > 0 {
        assert(card_rank(s[0]) <= card_rank(c));
        lemma_insert_pos(s.drop_first(), c, i - 1);
    }
}

proof fn lemma_remove_first(s: Seq<Card>, c: Card, i: int)
    requires
        0 <= i < s.len(),
        forall|j: int| 0 <= j < i ==> #[trigger] s[j] != c,
        s[i] == c,
    ensures
        remove_first(s, c) == s.remove(i),
    decreases s.len(),
{
    if i > 0 {
        lemma_remove_first(s.drop_first(), c, i - 1);
        assert(remove_first(s, c) =~= s.remove(i));
    } else {
        assert(remove_first(s, c) =~= s.remove(i));
    }
}

proof fn lemma_remove_absent(s: Seq<Card>, c: Card)
    requires
        !s.contains(c),
    ensures
        remove_first(s, c) == s,
    decreases s.len(),
{
    if s.len() > 0 {
        assert(s.drop_first().contains(c) ==> s.contains(c)) by {
            if s.drop_first().contains(c) {
                let k = choose|k: int| 0 <= k < s.drop_first().len() && s.drop_first()[k] == c;
                assert(s[k + 1] == c);
            }
        }
        assert(s[0] != c) by {
            if s[0] == c {
                assert(s.contains(c));
            }
        }
        lemma_remove_absent(s.drop_first(), c);
        assert(remove_first(s, c) =~= s);
    }
}

/// Position of the first copy of `c` in `v`, if any.
pub fn find_card(v: &Vec<Card>, c: Card) -> (r: Option<usize>)
    ensures
        match r {
            Some(i) => i < v@.len() && v@[i as int] == c && forall|j: int| 0 <= j < i ==> v@[j] != c,
            None => !v@.contains(c),
        },
{
    let mut i: usize = 0;
    while i < v.len()
        invariant
            i <= v@.len(),
            forall|j: int| 0 <= j < i ==> v@[j] != c,
        decreases v@.len() - i,
    {
        if v[i] == c {
            return Some(i);
        }
        i = i + 1;
    }
    None
}

/// Inserts `c` into `v` after every card that is not above it.
pub fn insert_card_sorted(v: &mut Vec<Card>, c: Card)
    ensures
        final(v)@ == insert_sorted(old(v)@, c),
{
    let mut i: usize = 0;
    let rc = rank_of(c);
    while i < v.len() && rank_of(v[i]) <= rc
        invariant
            i <= v@.len(),
            v@ == old(v)@,
            rc as int == card_rank(c),
            forall|j: int| 0 <= j < i ==> card_rank(#[trigger] v@[j]) <= card_rank(c),
        decreases v@.len() - i,
    {
        i = i + 1;
    }
    proof {
        lemma_insert_pos(v@, c, i as int);
    }
    v.insert(i, c);
}

/// Removes the first copy of `c` from `v`, if there is one.
pub fn remove_card(v: &mut Vec<Card>, c: Card)
    ensures
        final(v)@ == remove_first(old(v)@, c),
        !old(v)@.contains(c) ==> final(v)@ == old(v)@,
{
    match find_card(v, c) {
        Some(i) => {
            proof {
                lemma_remove_first(v@, c, i as int);
            }
            v.remove(i);
        },
        None => {
            proof {
                lemma_remove_absent(v@, c);
            }
        },
    }
}

/// Number of copies of `c` in `v`.
pub fn count_card(v: &Vec<Card>, c: Card) -> (r: usize)
    ensures
        r == count_of(v@, c),
{
    let mut i: usize = 0;
    let mut n: usize = 0;
    while i < v.len()
        invariant
            i <= v@.len(),
            n == count_of(v@.subrange(0, i as int), c),
            n <= i,
        decreases v@.len() - i,
    {
        proof {
            let s = v@.subrange(0, i as int + 1);
            assert(s.drop_last() =~= v@.subrange(0, i as int));
        }
        if v[i] == c {
            n = n + 1;
        }
        i = i + 1;
    }
    proof {
        assert(v@.subrange(0, v@.len() as int) =~= v@);
    }
    n
}

/// A set of cards split into those whose identity is known and a number of unknown ones.
#[derive(Debug, Clone, PartialEq, Eq, PartialOrd, Ord)]
pub struct CardCollection {
    pub known: Vec<Card>,
    pub unknown: usize,
}

/// A model of a card container: known cards in order, the number of unknown ones, and
/// whether the container is fully known (a hand whose every card is seen).
pub struct Pile {
    pub exact: bool,
    pub known: Seq<Card>,
    pub unknown: nat,
}

impl Pile {
    pub open spec fn count(self) -> nat {
        self.known.len() + self.unknown
    }

    pub open spec fn has_card(self, c: Card) -> bool {
        self.unknown > 0 || self.known.contains(c)
    }

    pub open spec fn add_card(self, c: Card) -> Pile {
        if !self.exact && c == Card::Unknown {
            Pile { unknown: self.unknown + 1, ..self }
        } else {
            Pile { known: insert_sorted(self.known, c), ..self }
        }
    }

    /// Removes a copy of `c`: a known one if there is one, else an unknown one.
    pub open spec fn drop_card(self, c: Card) -> Pile {
        if !self.exact && c == Card::Unknown && self.unknown > 0 {
            Pile { unknown: (self.unknown - 1) as nat, ..self }
        } else if self.known.contains(c) {
            Pile { known: remove_first(self.known, c), ..self }
        } else if self.unknown > 0 {
            Pile { unknown: (self.unknown - 1) as nat, ..self }
        } else {
            self
        }
    }

    pub open spec fn push_card(self, c: Card) -> Pile {
        if c == Card::Unknown {
            Pile { unknown: self.unknown + 1, ..self }
        } else {
            Pile { known: self.known.push(c), ..self }
        }
    }

    /// What a draw of the given kind takes from the pile, and the pile that is left.
    pub open spec fn pop_card(self, draw: DeckDraw) -> Option<(Card, Pile)> {
        match draw {
            DeckDraw::Top => if self.known.len() > 0 {
                Some((self.known.last(), Pile { known: self.known.drop_last(), ..self }))
            } else if self.unknown > 0 {
                Some((Card::Unknown, Pile { unknown: (self.unknown - 1) as nat, ..self }))
            } else {
                None
            },
            DeckDraw::Known(c) => if self.has_card(c) {
                Some((c, self.drop_card(c)))
            } else {
                None
            },
            DeckDraw::Unknown => if self.unknown > 0 {
                Some((Card::Unknown, Pile { unknown: (self.unknown - 1) as nat, ..self }))
            } else {
                None
            },
        }
    }

    /// Same cards, the known ones possibly in another order.
    pub open spec fn same_cards(self, other: Pile) -> bool {
        &&& self.exact == other.exact
        &&& self.unknown == other.unknown
        &&& self.known.to_multiset() == other.known.to_multiset()
        &&& self.known.len() == other.known.len()
    }
}

/// Which card a draw from the deck yields.
#[derive(Debug, Copy, Clone, PartialEq, Eq, Structural)]
pub enum DeckDraw {
    /// The top card of a deck whose order is known.
    Top,
    /// A card known to have been drawn.
    Known(Card),
    /// A card whose identity is not observed.
    Unknown,
}

impl View for CardCollection {
    type V = Pile;

    open spec fn view(&self) -> Pile {
        Pile { exact: false, known: self.known@, unknown: self.unknown as nat }
    }
}

impl CardCollection {
    pub fn len(&self) -> (r: usize)
        requires
            self@.count() <= usize::MAX,
        ensures
            r == self@.count(),
    {
        self.known.len() + self.unknown
    }

    pub fn is_empty(&self) -> (r: bool)
        ensures
            r == (self@.count() == 0),
    {
        self.known.len() == 0 && self.unknown == 0
    }

    /// Whether some card of the collection is unknown.
    pub fn has_any(&self) -> (r: bool)
        ensures
            r == (self.unknown > 0),
    {
        self.unknown > 0
    }

    pub fn contains_known(&self, card: Card) -> (r: bool)
        ensures
            r == self.known@.contains(card),
    {
        find_card(&self.known, card).is_some()
    }

    pub fn count_known(&self, card: Card) -> (r: usize)
        ensures
            r == count_of(self.known@, card),
    {
        count_card(&self.known, card)
    }

    /// Learns that one of the unknown cards is `card`.
    pub fn replace_any_by_known(&mut self, card: Card)
        requires
            old(self).unknown > 0,
        ensures
            final(self).known@ == old(self).known@.push(card),
            final(self).unknown == old(self).unknown - 1,
    {
        self.known.push(card);
        self.unknown = self.unknown - 1;
    }

    pub fn has_card(&self, card: Card) -> (r: bool)
        ensures
            r == self@.has_card(card),
    {
        self.unknown > 0 || self.contains_known(card)
    }

    pub fn add_card(&mut self, card: Card)
        requires
            card == Card::Unknown ==> old(self).unknown < usize::MAX,
        ensures
            final(self)@ == old(self)@.add_card(card),
    {
        if card == Card::Unknown {
            self.unknown = self.unknown + 1;
        } else {
            insert_card_sorted(&mut self.known, card);
        }
    }

    pub fn drop_card(&mut self, card: Card)
        ensures
            final(self)@ == old(self)@.drop_card(card),
    {
        if card == Card::Unknown && self.unknown > 0 {
            self.unknown = self.unknown - 1;
        } else if self.contains_known(card) {
            remove_card(&mut self.known, card);
        } else if self.unknown > 0 {
            self.unknown = self.unknown - 1;
        }
    }

    pub fn push_card(&mut self, card: Card)
        requires
            card == Card::Unknown ==> old(self).unknown < usize::MAX,
        ensures
            final(self)@ == old(self)@.push_card(card),
    {
        if card == Card::Unknown {
            self.unknown = self.unknown + 1;
        } else {
            self.known.push(card);
        }
    }

    /// Draws a card as `draw` says; `None`, with nothing changed, when the pile has no such card.
    pub fn pop_card(&mut self, draw: DeckDraw) -> (r: Option<Card>)
        ensures
            match old(self)@.pop_card(draw) {
                Some((c, p)) => r == Some(c) && final(self)@ == p,
                None => r is None && final(self)@ == old(self)@,
            },
    {
        match draw {
            DeckDraw::Top => {
                if self.known.len() > 0 {
                    self.known.pop()
                } else if self.unknown > 0 {
                    self.unknown = self.unknown - 1;
                    Some(Card::Unknown)
                } else {
                    None
                }
            },
            DeckDraw::Known(c) => {
                if self.has_card(c) {
                    self.drop_card(c);
                    Some(c)
                } else {
                    None
                }
            },
            DeckDraw::Unknown => {
                if self.unknown > 0 {
                    self.unknown = self.unknown - 1;
                    Some(Card::Unknown)
                } else {
                    None
                }
            },
        }
    }

    pub fn sort(&mut self)
        ensures
            final(self)@.same_cards(old(self)@),
            final(self).unknown == old(self).unknown,
            is_sorted(final(self)@.known),
    {
        sort_cards(&mut self.known);
    }
}

/// Sorts `v` by card order.
pub fn sort_cards(v: &mut Vec<Card>)
    ensures
        final(v)@.to_multiset() == old(v)@.to_multiset(),
        final(v)@.len() == old(v)@.len(),
        is_sorted(final(v)@),
{
    let mut out: Vec<Card> = Vec::new();
    let mut i: usize = 0;
    proof {
        assert(v@.subrange(0, 0) =~= out@);
    }
    while i < v.len()
        invariant
            i <= v@.len(),
            v@ == old(v)@,
            out@.to_multiset() == v@.subrange(0, i as int).to_multiset(),
            out@.len() == i,
            is_sorted(out@),
        decreases v@.len() - i,
    {
        proof {
            assert(v@.subrange(0, i as int + 1) =~= v@.subrange(0, i as int).push(v@[i as int]));
            vstd::seq_lib::to_multiset_build(v@.subrange(0, i as int), v@[i as int]);
            lemma_insert_sorted_multiset(out@, v@[i as int]);
            lemma_insert_sorted_sorted(out@, v@[i as int]);
        }
        insert_card_sorted(&mut out, v[i]);
        i = i + 1;
    }
    proof {
        assert(v@.subrange(0, v@.len() as int) =~= v@);
    }
    *v = out;
}

proof fn lemma_insert_sorted_multiset(s: Seq<Card>, c: Card)
    ensures
        insert_sorted(s, c).to_multiset() == s.to_multiset().insert(c),
        insert_sorted(s, c).len() == s.len() + 1,
{
    lemma_insert_pos_bound(s, c);
    vstd::seq_lib::to_multiset_insert(s, insert_pos(s, c) as int, c);
}

pub proof fn lemma_remove_first_len(s: Seq<Card>, c: Card)
    requires
        s.contains(c),
    ensures
        remove_first(s, c).len() == s.len() - 1,
    decreases s.len(),
{
    if s[0] != c {
        let k = choose|k: int| 0 <= k < s.len() && s[k] == c;
        assert(s.drop_first()[k - 1] == c);
        lemma_remove_first_len(s.drop_first(), c);
    }
}

impl Pile {
    pub proof fn lemma_add_count(self, c: Card)
        ensures
            self.add_card(c).count() == self.count() + 1,
            self.add_card(c).exact == self.exact,
    {
        lemma_insert_pos_bound(self.known, c);
    }

    pub proof fn lemma_drop_count(self, c: Card)
        requires
            self.has_card(c),
        ensures
            self.drop_card(c).count() + 1 == self.count(),
            self.drop_card(c).exact == self.exact,
    {
        if !(!self.exact && c == Card::Unknown && self.unknown > 0) && self.known.contains(c) {
            lemma_remove_first_len(self.known, c);
        }
    }

    pub proof fn lemma_pop_count(self, draw: DeckDraw)
        requires
            self.pop_card(draw) is Some,
        ensures
            self.pop_card(draw).unwrap().1.count() + 1 == self.count(),
            self.pop_card(draw).unwrap().1.exact == self.exact,
    {
        if let DeckDraw::Known(c) = draw {
            self.lemma_drop_count(c);
        }
    }
}

pub proof fn lemma_insert_pos_bound(s: Seq<Card>, c: Card)
    ensures
        insert_pos(s, c) <= s.len(),
    decreases s.len(),
{
    if s.len() > 0 && card_rank(s[0]) <= card_rank(c) {
        lemma_insert_pos_bound(s.drop_first(), c);
    }
}

/// The cards of one player: fully known (the tracking player's own hand, or any hand in a
/// real game), or split into known and unknown cards (an opponent's hand in a belief).
#[derive(Debug, Clone, PartialEq, Eq, PartialOrd, Ord)]
pub enum GamePlayerCards {
    Player(Vec<Card>),
    Opponent(CardCollection),
}

impl View for GamePlayerCards {
    type V = Pile;

    open spec fn view(&self) -> Pile {
        match self {
            GamePlayerCards::Player(v) => Pile { exact: true, known: v@, unknown: 0 },
            GamePlayerCards::Opponent(c) => c@,
        }
    }
}

impl GamePlayerCards {
    pub fn is_empty(&self) -> (r: bool)
        ensures
            r == (self@.count() == 0),
    {
        match self {
            GamePlayerCards::Player(cards) => cards.len() == 0,
            GamePlayerCards::Opponent(cards) => cards.is_empty(),
        }
    }

    /// Whether some card of the hand is unknown.
    pub fn has_any(&self) -> (r: bool)
        ensures
            r == (self@.unknown > 0),
    {
        match self {
            GamePlayerCards::Player(..) => false,
            GamePlayerCards::Opponent(cards) => cards.has_any(),
        }
    }

    pub fn known_len(&self) -> (r: usize)
        ensures
            r == self@.known.len(),
    {
        match self {
            GamePlayerCards::Player(cards) => cards.len(),
            GamePlayerCards::Opponent(cards) => cards.known.len(),
        }
    }

    pub fn get_known(&self, index: usize) -> (r: Card)
        requires
            index < self@.known.len(),
        ensures
            r == self@.known[index as int],
    {
        match self {
            GamePlayerCards::Player(cards) => cards[index],
            GamePlayerCards::Opponent(cards) => cards.known[index],
        }
    }

    pub fn contains_known(&self, card: Card) -> (r: bool)
        ensures
            r == self@.known.contains(card),
    {
        match self {
            GamePlayerCards::Player(cards) => find_card(cards, card).is_some(),
            GamePlayerCards::Opponent(cards) => cards.contains_known(card),
        }
    }

    pub fn count_known(&self, card: Card) -> (r: usize)
        ensures
            r == count_of(self@.known, card),
    {
        match self {
            GamePlayerCards::Player(cards) => count_card(cards, card),
            GamePlayerCards::Opponent(cards) => cards.count_known(card),
        }
    }

    /// Learns that one of the unknown cards of an opponent's hand is `card`.
    pub fn replace_any_by_known(&mut self, card: Card)
        requires
            old(self)@.unknown > 0,
        ensures
            final(self)@ == (Pile {
                known: old(self)@.known.push(card),
                unknown: (old(self)@.unknown - 1) as nat,
                ..old(self)@
            }),
    {
        match self {
            GamePlayerCards::Player(..) => {},
            GamePlayerCards::Opponent(cards) => cards.replace_any_by_known(card),
        }
    }

    pub fn sort(&mut self)
        ensures
            final(self)@.same_cards(old(self)@),
            is_sorted(final(self)@.known),
    {
        match self {
            GamePlayerCards::Player(cards) => sort_cards(cards),
            GamePlayerCards::Opponent(cards) => cards.sort(),
        }
    }

    pub fn has_card(&self, card: Card) -> (r: bool)
        ensures
            r == self@.has_card(card),
    {
        match self {
            GamePlayerCards::Player(cards) => find_card(cards, card).is_some(),
            GamePlayerCards::Opponent(cards) => cards.has_card(card),
        }
    }

    pub fn count(&self) -> (r: usize)
        requires
            self@.count() <= usize::MAX,
        ensures
            r == self@.count(),
    {
        match self {
            GamePlayerCards::Player(cards) => cards.len(),
            GamePlayerCards::Opponent(cards) => cards.len(),
        }
    }

    pub fn add_card(&mut self, card: Card)
        requires
            old(self)@.unknown < usize::MAX,
        ensures
            final(self)@ == old(self)@.add_card(card),
    {
        match self {
            GamePlayerCards::Player(cards) => insert_card_sorted(cards, card),
            GamePlayerCards::Opponent(cards) => cards.add_card(card),
        }
    }

    pub fn drop_card(&mut self, card: Card)
        ensures
            final(self)@ == old(self)@.drop_card(card),
    {
        match self {
            GamePlayerCards::Player(cards) => remove_card(cards, card),
            GamePlayerCards::Opponent(cards) => cards.drop_card(card),
        }
    }
}

pub proof fn lemma_remove_first_subset(s: Seq<Card>, c: Card, x: Card)
    ensures
        remove_first(s, c).contains(x) ==> s.contains(x),
    decreases s.len(),
{
    if s.len() > 0 && remove_first(s, c).contains(x) {
        let k = choose|k: int| 0 <= k < remove_first(s, c).len() && remove_first(s, c)[k] == x;
        if s[0] == c {
            assert(s[k + 1] == x);
        } else if k == 0 {
            assert(s[0] == x);
        } else {
            lemma_remove_first_subset(s.drop_first(), c, x);
            assert(remove_first(s.drop_first(), c)[k - 1] == x);
            let j = choose|j: int| 0 <= j < s.drop_first().len() && s.drop_first()[j] == x;
            assert(s[j + 1] == x);
        }
    }
}

pub proof fn lemma_insert_sorted_contains(s: Seq<Card>, c: Card, x: Card)
    ensures
        insert_sorted(s, c).contains(x) ==> s.contains(x) || x == c,
{
    lemma_insert_pos_bound(s, c);
    let k = insert_pos(s, c) as int;
    if insert_sorted(s, c).contains(x) && x != c {
        let j = choose|j: int| 0 <= j < insert_sorted(s, c).len() && insert_sorted(s, c)[j] == x;
        if j < k {
            assert(s[j] == x);
        } else {
            assert(s[j - 1] == x);
        }
    }
}

impl Pile {
    /// Every card of the pile is known, and none is the unknown card.
    pub open spec fn is_real(self) -> bool {
        self.unknown == 0 && !self.known.contains(Card::Unknown)
    }

    pub proof fn lemma_real_drop(self, c: Card)
        requires
            self.is_real(),
            self.exact,
        ensures
            self.drop_card(c).is_real(),
    {
        lemma_remove_first_subset(self.known, c, Card::Unknown);
    }

    pub proof fn lemma_real_add(self, c: Card)
        requires
            self.is_real(),
            c != Card::Unknown,
        ensures
            self.add_card(c).is_real(),
    {
        lemma_insert_sorted_contains(self.known, c, Card::Unknown);
    }

    pub proof fn lemma_real_push(self, c: Card)
        requires
            self.is_real(),
            c != Card::Unknown,
        ensures
            self.push_card(c).is_real(),
    {
        if self.known.push(c).contains(Card::Unknown) {
            let k = choose|k: int| 0 <= k < self.known.push(c).len() && self.known.push(c)[k] == Card::Unknown;
            assert(self.known[k] == Card::Unknown);
        }
    }

    pub proof fn lemma_real_pop(self)
        requires
            self.is_real(),
            self.pop_card(DeckDraw::Top) is Some,
        ensures
            self.pop_card(DeckDraw::Top).unwrap().0 != Card::Unknown,
            self.pop_card(DeckDraw::Top).unwrap().1.is_real(),
    {
        assert(self.known[self.known.len() - 1] == self.known.last());
        if self.known.drop_last().contains(Card::Unknown) {
            let k = choose|k: int| 0 <= k < self.known.drop_last().len() && self.known.drop_last()[k] == Card::Unknown;
            assert(self.known[k] == Card::Unknown);
        }
    }
}

} // verus!
