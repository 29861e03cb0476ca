use vstd::prelude::*;

verus! {

/// What a tile hides: a mine, or the number of mines among its neighbours.
#[derive(Clone, Copy, Debug, PartialEq, Eq, Structural)]
pub enum TileValue {
    Mine,
    Empty(u32),
}

/// Whether a tile has been revealed; a closed tile carries a marking.
#[derive(Clone, Copy, Debug, PartialEq, Eq, Structural)]
pub enum TileState {
    Closed(TileMarking),
    Opened,
}

/// The player's annotation on a closed tile.
#[derive(Clone, Copy, Debug, PartialEq, Eq, Structural)]
pub enum TileMarking {
    Unmarked,
    Flag,
    Question,
}

#[derive(Clone, Copy, Debug, PartialEq, Eq, Structural)]
pub struct Tile {
    pub value: TileValue,
    pub state: TileState,
}

/// The marking that follows `m` in the cycle Unmarked, Flag, Question, Unmarked, ...
pub open spec fn next_marking(m: TileMarking) -> TileMarking {
    match m {
        TileMarking::Unmarked => TileMarking::Flag,
        TileMarking::Flag => TileMarking::Question,
        TileMarking::Question => TileMarking::Unmarked,
    }
}

/// A tile after one `cycle`: a closed tile moves to the next marking, an
/// opened one stays as it is.
pub open spec fn cycled(t: Tile) -> Tile {
    match t.state {
        TileState::Closed(m) => Tile { value: t.value, state: TileState::Closed(next_marking(m)) },
        TileState::Opened => t,
    }
}

/// A tile after `inc_mine_count`: an empty tile's count goes up by one.
pub open spec fn incremented(t: Tile) -> Tile {
    match t.value {
        TileValue::Empty(n) => Tile { value: TileValue::Empty((n + 1) as u32), state: t.state },
        TileValue::Mine => t,
    }
}

pub open spec fn is_opened(t: Tile) -> bool {
    t.state == TileState::Opened
}

pub open spec fn is_mine(t: Tile) -> bool {
    t.value == TileValue::Mine
}

/// Three cycles bring a tile back to where it started.
pub proof fn lemma_cycle_three_times(t: Tile)
    ensures
        cycled(cycled(cycled(t))) == t,
        !is_opened(t) ==> cycled(t) != t && cycled(cycled(t)) != t,
{
}

/// The character a renderer shows for a tile: `*` for an opened mine, a
/// space for an opened tile with no mine round it, the count's digit for
/// another opened tile, and for a closed tile a box that is plain, flagged
/// or questioned after its marking.
pub open spec fn symbol_of(state: TileState, value: TileValue) -> char {
    match state {
        TileState::Opened => match value {
            TileValue::Mine => '*',
            TileValue::Empty(n) => if n == 0 {
                ' '
            } else {
                ((48 + n) as u8) as char
            },
        },
        TileState::Closed(TileMarking::Unmarked) => '\u{2395}',
        TileState::Closed(TileMarking::Flag) => '\u{233b}',
        TileState::Closed(TileMarking::Question) => '\u{2370}',
    }
}

/// The character shown for a tile in `state` holding `value`.
pub fn tile_symbol(state: TileState, value: TileValue) -> (r: char)
    requires
        value matches TileValue::Empty(n) ==> n <= 8,
    ensures
        r == symbol_of(state, value),
{
    match state {
        TileState::Opened => match value {
            TileValue::Mine => '*',
            TileValue::Empty(n) => if n == 0 {
                ' '
            } else {
                ((48 + n) as u8) as char
            },
        },
        TileState::Closed(TileMarking::Unmarked) => '\u{2395}',
        TileState::Closed(TileMarking::Flag) => '\u{233b}',
        TileState::Closed(TileMarking::Question) => '\u{2370}',
    }
}

impl Tile {
    /// An empty, closed, unmarked tile.
    pub open spec fn spec_new() -> Tile {
        Tile { value: TileValue::Empty(0), state: TileState::Closed(TileMarking::Unmarked) }
    }

    pub fn new() -> (r: Tile)
        ensures
            r == Tile::spec_new(),
    {
        Tile { value: TileValue::Empty(0), state: TileState::Closed(TileMarking::Unmarked) }
    }

    pub fn set_mine(&mut self)
        ensures
            final(self).value == TileValue::Mine,
            final(self).state == old(self).state,
    {
        self.value = TileValue::Mine;
    }

    pub fn inc_mine_count(&mut self)
        requires
            old(self).value matches TileValue::Empty(n) ==> n < u32::MAX,
        ensures
            *final(self) == incremented(*old(self)),
    {
        if let TileValue::Empty(n) = self.value {
            self.value = TileValue::Empty(n + 1);
        }
    }

    /// Opens the tile if it is closed, handing back what it hides; an opened
    /// tile gives `None` and stays as it is.
    pub fn open(&mut self) -> (r: Option<TileValue>)
        ensures
            is_opened(*old(self)) ==> r == None::<TileValue> && *final(self) == *old(self),
            !is_opened(*old(self)) ==> r == Some(old(self).value) && *final(self) == (Tile {
                value: old(self).value,
                state: TileState::Opened,
            }),
    {
        if let TileState::Closed(_) = self.state {
            self.state = TileState::Opened;
            return Some(self.value);
        }
        None
    }

    /// Moves a closed tile's marking one step along its cycle.
    pub fn cycle(&mut self)
        ensures
            *final(self) == cycled(*old(self)),
    {
        if let TileState::Closed(mark) = self.state {
            self.state = TileState::Closed(
                match mark {
                    TileMarking::Unmarked => TileMarking::Flag,
                    TileMarking::Flag => TileMarking::Question,
                    TileMarking::Question => TileMarking::Unmarked,
                },
            );
        }
    }
}

} // verus!
