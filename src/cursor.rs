//! The cursor interprets a geometry and returns a chain of commands.

use vstd::prelude::*;

use crate::error::Error;
use crate::zigzag::{de_zigzag, zigzag_value};

verus! {

/// Chains of commands form paths and polygons.
///
/// Positions are absolute, in the layer's own integer coordinates; (0, 0) is
/// the upper left corner of the tile.
#[derive(Debug, Clone, Copy, PartialEq, Eq, Structural)]
pub enum Command {
    /// Move the cursor to point (x, y).
    MoveTo(i32, i32),
    /// Draw a line to the given point.
    LineTo(i32, i32),
    /// Return to the first point of the polygon.
    ClosePath,
}

/// Where a cursor stands in its geometry.
pub struct CursorState {
    /// Index of the next word to read.
    pub pos: int,
    /// Id of the current command.
    pub id: u32,
    /// Repetitions of the current command still to come.
    pub count: u32,
    /// Running absolute position.
    pub x: i32,
    pub y: i32,
    /// Set once an error has been reported: nothing more comes.
    pub done: bool,
}

/// The state of a fresh cursor.
pub open spec fn start_state() -> CursorState {
    CursorState { pos: 0, id: 0, count: 0, x: 0, y: 0, done: false }
}

/// The state after an error: no more items.
pub open spec fn poisoned(st: CursorState) -> CursorState {
    CursorState { done: true, ..st }
}

/// Whether a state has nothing more to yield: an error was reported, or the
/// words are used up and no repetition of a command is pending.
pub open spec fn finished(words: Seq<u32>, st: CursorState) -> bool {
    st.done || st.pos < 0 || st.pos > words.len() || (st.count == 0 && st.pos == words.len())
}

/// One step of the decoder: the next state and the item it yields.
///
/// A MoveTo or LineTo repetition that finds fewer than two parameter words
/// left, even none, is an error: a truncated geometry never ends silently.
pub open spec fn step(words: Seq<u32>, st: CursorState) -> (CursorState, Option<
    Result<Command, Error>,
>) {
    if finished(words, st) {
        (st, None)
    } else {
        let fresh = st.count == 0;
        let w = words[st.pos];
        let id: u32 = if fresh { w & 7 } else { st.id };
        let count: u32 = if fresh { w >> 3 } else { st.count };
        let pos: int = if fresh { st.pos + 1 } else { st.pos };
        let at = CursorState { pos, id, count, ..st };
        if count == 0 {
            (poisoned(at), Some(Err(Error::MalformedGeometry)))
        } else if id == 1 || id == 2 {
            if pos + 2 > words.len() {
                (poisoned(at), Some(Err(Error::MalformedGeometry)))
            } else {
                let x = st.x.wrapping_add(zigzag_value(words[pos]) as i32);
                let y = st.y.wrapping_add(zigzag_value(words[pos + 1]) as i32);
                let next = CursorState { pos: pos + 2, count: (count - 1) as u32, x, y, ..at };
                (next, Some(Ok(if id == 1 { Command::MoveTo(x, y) } else { Command::LineTo(x, y) })))
            }
        } else if id == 7 {
            (CursorState { count: (count - 1) as u32, ..at }, Some(Ok(Command::ClosePath)))
        } else {
            (poisoned(at), Some(Err(Error::MalformedGeometry)))
        }
    }
}

/// A measure that every step which yields an item makes smaller.
pub open spec fn remaining(words: Seq<u32>, st: CursorState) -> nat {
    if finished(words, st) {
        0
    } else {
        ((words.len() - st.pos) * 0x1_0000_0000 + st.count) as nat
    }
}

/// Every item that the decoder yields from state `st` on, in order.
pub open spec fn items_from(words: Seq<u32>, st: CursorState) -> Seq<Result<Command, Error>>
    decreases remaining(words, st),
{
    let (next, item) = step(words, st);
    match item {
        None => Seq::empty(),
        Some(it) => if remaining(words, next) < remaining(words, st) {
            seq![it] + items_from(words, next)
        } else {
            seq![it]
        },
    }
}

/// Every item that a fresh cursor yields from a geometry, in order.
pub open spec fn items(words: Seq<u32>) -> Seq<Result<Command, Error>> {
    items_from(words, start_state())
}

/// A cursor iterates over a geometry (line or polygon).
pub struct Cursor<'a> {
    geometry: &'a [u32],
    pos: usize,
    id: u32,
    count: u32,
    x: i32,
    y: i32,
    done: bool,
}

impl<'a> Cursor<'a> {
    /// The words of the geometry.
    pub closed spec fn words(&self) -> Seq<u32> {
        self.geometry@
    }

    /// Where the cursor stands.
    pub closed spec fn state(&self) -> CursorState {
        CursorState {
            pos: self.pos as int,
            id: self.id,
            count: self.count,
            x: self.x,
            y: self.y,
            done: self.done,
        }
    }

    /// Get a cursor for the geometry.
    pub fn new(geometry: &'a [u32]) -> (c: Cursor<'a>)
        ensures
            c.words() == geometry@,
            c.state() == start_state(),
    {
        Cursor { geometry, pos: 0, id: 0, count: 0, x: 0, y: 0, done: false }
    }

    /// The next command, an error after which nothing more comes, or `None`
    /// at the end of the geometry.
    pub fn next(&mut self) -> (r: Option<Result<Command, Error>>)
        ensures
            final(self).words() == old(self).words(),
            (final(self).state(), r) == step(old(self).words(), old(self).state()),
    {
        if self.done || self.pos > self.geometry.len() || (self.count == 0 && self.pos
            == self.geometry.len()) {
            return None;
        }
        if self.count == 0 {
            let w = self.geometry[self.pos];
            self.id = w & 7;
            self.count = w >> 3;
            self.pos = self.pos + 1;
        }
        if self.count == 0 {
            self.done = true;
            return Some(Err(Error::MalformedGeometry));
        }
        if self.id == 1 || self.id == 2 {
            if self.geometry.len() - self.pos < 2 {
                // Too few parameter words, or none at all: the geometry is
                // truncated.
                self.done = true;
                return Some(Err(Error::MalformedGeometry));
            }
            self.x = self.x.wrapping_add(de_zigzag(self.geometry[self.pos]));
            self.y = self.y.wrapping_add(de_zigzag(self.geometry[self.pos + 1]));
            self.pos = self.pos + 2;
            self.count = self.count - 1;
            if self.id == 1 {
                Some(Ok(Command::MoveTo(self.x, self.y)))
            } else {
                Some(Ok(Command::LineTo(self.x, self.y)))
            }
        } else if self.id == 7 {
            self.count = self.count - 1;
            Some(Ok(Command::ClosePath))
        } else {
            self.done = true;
            Some(Err(Error::MalformedGeometry))
        }
    }
}

/// A step that yields an item leaves less to decode.
pub proof fn lemma_step_decreases(words: Seq<u32>, st: CursorState)
    ensures
        step(words, st).1 is Some ==> remaining(words, step(words, st).0) < remaining(words, st),
{
    if step(words, st).1 is Some {
        let w = words[st.pos];
        assert((w >> 3u32) < 0x2000_0000u32) by (bit_vector);
    }
}

/// The items from a state are the item of its step, then the items from
/// the state after it.
pub proof fn lemma_items_unfold(words: Seq<u32>, st: CursorState)
    ensures
        match step(words, st).1 {
            None => items_from(words, st) == Seq::<Result<Command, Error>>::empty(),
            Some(it) => items_from(words, st) == seq![it] + items_from(words, step(words, st).0),
        },
{
    lemma_step_decreases(words, st);
}

/// An error ends the items: every item before the last is a command.
pub proof fn lemma_error_is_last(words: Seq<u32>, st: CursorState)
    ensures
        forall|i: int|
            0 <= i < items_from(words, st).len() - 1 ==> #[trigger] items_from(words, st)[i] is Ok,
    decreases remaining(words, st),
{
    lemma_items_unfold(words, st);
    lemma_step_decreases(words, st);
    let (next, item) = step(words, st);
    if let Some(it) = item {
        lemma_error_is_last(words, next);
        lemma_items_unfold(words, next);
        let all = items_from(words, st);
        let rest = items_from(words, next);
        assert forall|i: int| 0 <= i < all.len() - 1 implies #[trigger] all[i] is Ok by {
            if i > 0 {
                assert(all[i] == rest[i - 1]);
            }
        }
    }
}

/// The positions of the MoveTo and LineTo commands among decoder items, in
/// order.
pub open spec fn points_of(its: Seq<Result<Command, Error>>) -> Seq<(i32, i32)>
    decreases its.len(),
{
    if its.len() == 0 {
        Seq::empty()
    } else {
        let rest = points_of(its.drop_first());
        match its[0] {
            Ok(Command::MoveTo(x, y)) => seq![(x, y)] + rest,
            Ok(Command::LineTo(x, y)) => seq![(x, y)] + rest,
            _ => rest,
        }
    }
}

/// The absolute positions that the MoveTo and LineTo commands of a geometry
/// reach, in order, up to the first error.
pub fn points(geometry: &[u32]) -> (r: Vec<(i32, i32)>)
    ensures
        r@ == points_of(items(geometry@)),
{
    let mut r: Vec<(i32, i32)> = Vec::new();
    let mut c = Cursor::new(geometry);
    loop
        invariant
            c.words() == geometry@,
            points_of(items(geometry@)) == r@ + points_of(items_from(geometry@, c.state())),
        decreases remaining(geometry@, c.state()),
    {
        let ghost st = c.state();
        proof {
            lemma_items_unfold(geometry@, st);
            lemma_step_decreases(geometry@, st);
        }
        let ghost rest = items_from(geometry@, c.state());
        match c.next() {
            None => {
                assert(points_of(rest) =~= Seq::empty());
                assert(r@ + points_of(rest) =~= r@);
                return r;
            },
            Some(it) => {
                assert(rest.drop_first() =~= items_from(geometry@, c.state()));
                match it {
                    Ok(Command::MoveTo(x, y)) => {
                        r.push((x, y));
                    },
                    Ok(Command::LineTo(x, y)) => {
                        r.push((x, y));
                    },
                    _ => {},
                }
                assert(points_of(items(geometry@)) =~= r@ + points_of(items_from(geometry@, c.state())));
            },
        }
    }
}

} // verus!
