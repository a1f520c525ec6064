//! Sources of random draws for the sampler.

use rand::Rng;
use rand::rngs::ThreadRng;
use vstd::prelude::*;

verus! {

/// The thread-local generator of `rand`, carried through opaquely.
#[verifier::external_type_specification]
#[verifier::external_body]
pub struct ExThreadRng(rand::rngs::ThreadRng);

/// Relies on `rand::thread_rng`: a handle on the thread's generator.
#[verifier::external_body]
fn new_thread_rng() -> ThreadRng {
    rand::thread_rng()
}

/// Relies on `Rng::gen::<i32>`: any `i32`, nothing more is known.
#[verifier::external_body]
fn raw_i32(rng: &mut ThreadRng) -> i32 {
    rng.gen::<i32>()
}

/// Relies on `Rng::gen::<bool>`: either value, nothing more is known.
#[verifier::external_body]
fn raw_bool(rng: &mut ThreadRng) -> bool {
    rng.gen::<bool>()
}

/// Relies on `Rng::gen_range` over `0..n`: a value of that range; the range
/// must not be empty, or it panics.
#[verifier::external_body]
fn raw_index(rng: &mut ThreadRng, n: usize) -> (r: usize)
    requires
        n > 0,
    ensures
        r < n,
{
    rng.gen_range(0..n)
}

/// One random draw, as the sampler consumed it.
pub enum Draw {
    /// A raw integer over the whole `i32` range.
    Int(i32),
    /// A fair coin.
    Coin(bool),
    /// An index, and the length of the collection it picks from.
    Pick(usize, usize),
}

/// Where draws come from: a fixed list of words, replayed in order (for
/// reproducible runs), or the thread-local generator.
pub struct Source {
    rng: Option<ThreadRng>,
    words: Vec<u32>,
    pos: usize,
    log: Ghost<Seq<Draw>>,
}

/// The first of `words`, or `0` when there is none.
pub open spec fn first_or_zero(words: Seq<u32>) -> u32 {
    if words.len() > 0 {
        words[0]
    } else {
        0
    }
}

/// `words` without its first word.
pub open spec fn after_first(words: Seq<u32>) -> Seq<u32> {
    if words.len() > 0 {
        words.skip(1)
    } else {
        words
    }
}

/// The words still to replay after one draw.
pub open spec fn after_draw(pending: Option<Seq<u32>>) -> Option<Seq<u32>> {
    match pending {
        Some(ws) => Some(after_first(ws)),
        None => None,
    }
}

/// The word that the next draw of a replaying source uses.
pub open spec fn next_word_of(pending: Option<Seq<u32>>) -> u32 {
    first_or_zero(pending->Some_0)
}

impl Source {
    /// Every draw handed out so far, oldest first.
    pub closed spec fn drawn(&self) -> Seq<Draw> {
        self.log@
    }

    /// The words still to replay, or `None` for a source backed by the
    /// thread-local generator.
    pub closed spec fn pending(&self) -> Option<Seq<u32>> {
        match self.rng {
            Some(_) => None,
            None => Some(
                if self.pos <= self.words.len() {
                    self.words@.skip(self.pos as int)
                } else {
                    Seq::empty()
                },
            ),
        }
    }

    /// A source that replays `words`, one per draw, and gives `0` once they
    /// run out. An integer draw is the word's bits, a coin is its lowest bit,
    /// a pick from `n` items is the word modulo `n`.
    pub fn from_words(words: Vec<u32>) -> (s: Source)
        ensures
            s.drawn() == Seq::<Draw>::empty(),
            s.pending() == Some(words@),
    {
        let s = Source { rng: None, words, pos: 0, log: Ghost(Seq::empty()) };
        assert(s.words@.skip(0) =~= s.words@);
        s
    }

    /// A source backed by the thread-local generator.
    pub fn thread() -> (s: Source)
        ensures
            s.drawn() == Seq::<Draw>::empty(),
            s.pending() is None,
    {
        Source { rng: Some(new_thread_rng()), words: Vec::new(), pos: 0, log: Ghost(Seq::empty()) }
    }

    fn next_word(&mut self) -> (w: u32)
        requires
            old(self).rng is None,
        ensures
            final(self).drawn() == old(self).drawn(),
            final(self).rng is None,
            final(self).pending() == after_draw(old(self).pending()),
            w == next_word_of(old(self).pending()),
    {
        if self.pos < self.words.len() {
            let w = self.words[self.pos];
            proof {
                assert(self.words@.skip(self.pos as int).skip(1) =~= self.words@.skip(self.pos + 1));
            }
            self.pos = self.pos + 1;
            w
        } else {
            0
        }
    }

    /// Draws a raw integer: when replaying, the next word's bits.
    pub fn next_int(&mut self) -> (r: i32)
        ensures
            final(self).drawn() == old(self).drawn().push(Draw::Int(r)),
            final(self).pending() == after_draw(old(self).pending()),
            old(self).pending() is Some ==> r == next_word_of(old(self).pending()) as i32,
    {
        let r = match &mut self.rng {
            Some(g) => raw_i32(g),
            None => self.next_word() as i32,
        };
        self.log = Ghost(self.log@.push(Draw::Int(r)));
        r
    }

    /// Flips a coin: when replaying, the next word's lowest bit.
    pub fn next_coin(&mut self) -> (r: bool)
        ensures
            final(self).drawn() == old(self).drawn().push(Draw::Coin(r)),
            final(self).pending() == after_draw(old(self).pending()),
            old(self).pending() is Some ==> r == (next_word_of(old(self).pending()) % 2 == 1),
    {
        let r = match &mut self.rng {
            Some(g) => raw_bool(g),
            None => self.next_word() % 2 == 1,
        };
        self.log = Ghost(self.log@.push(Draw::Coin(r)));
        r
    }

    /// Picks an index below `n`: when replaying, the next word modulo `n`.
    pub fn next_index(&mut self, n: usize) -> (r: usize)
        requires
            n > 0,
        ensures
            r < n,
            final(self).drawn() == old(self).drawn().push(Draw::Pick(r, n)),
            final(self).pending() == after_draw(old(self).pending()),
            old(self).pending() is Some ==> r == (next_word_of(old(self).pending()) as usize) % n,
    {
        let r = match &mut self.rng {
            Some(g) => raw_index(g, n),
            None => (self.next_word() as usize) % n,
        };
        self.log = Ghost(self.log@.push(Draw::Pick(r, n)));
        r
    }
}

} // verus!
