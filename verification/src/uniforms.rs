//! Per-frame uniform-value providers and their order-preserving combinator.
//!
//! A provider enumerates the named values it contributes to one draw call,
//! in a stable, provider-defined order. [`Provider::Combined`] merges two
//! providers by visiting the first's pairs, then the second's, without
//! deduplication; name collisions pass through to the binding layer, where
//! the later-visited value wins. Float-valued uniforms are carried as IEEE
//! 754 bit patterns: the core decides and orders values, the GPU binding
//! layer converts.

use vstd::prelude::*;

verus! {

/// The symbolic name of one uniform value; the binding layer renders it as
/// the conventional GLSL identifier (`iResolution`, `iMouse`, the global
/// time, `iChannel<index>`, or the tracked sequencer name at an index).
#[derive(Clone, Copy, PartialEq, Eq, Structural, Debug)]
pub enum UniformName {
    Resolution,
    Mouse,
    Time,
    Channel(usize),
    Track(usize),
}

/// One uniform value as the core carries it: integers for viewport-derived
/// data, elapsed milliseconds for time, float bit patterns for sequencer
/// values, and registry handles for textures.
#[derive(Clone, Copy, PartialEq, Eq, Structural, Debug)]
pub enum UniformValue {
    Int3(i64, i64, i64),
    Int2(i64, i64),
    TimeMs(u64),
    Bits(u32),
    Texture(usize),
}

/// An input event the frame state consumes, delivered by the window layer:
/// cursor motion in framebuffer coordinates, a viewport resize, or a close
/// request (which the frame state ignores; the frame loop acts on it).
#[derive(Clone, Copy, PartialEq, Eq, Structural, Debug)]
pub enum Event {
    PointerMoved(i32, i32),
    Resized(u32, u32),
    CloseRequested,
}

/// Frame state: the most recently observed viewport size and cursor
/// position, and the elapsed time the frame loop last sampled.
#[derive(Clone, Copy, PartialEq, Eq, Structural, Debug)]
pub struct State {
    pub width: u32,
    pub height: u32,
    pub cursor_x: i32,
    pub cursor_y: i32,
    pub elapsed_ms: u64,
}

impl State {
    /// Fresh frame state for a viewport of the given size: cursor at the
    /// origin, no time elapsed.
    pub fn new(size: (u32, u32)) -> (r: State)
        ensures
            r.width == size.0,
            r.height == size.1,
            r.cursor_x == 0,
            r.cursor_y == 0,
            r.elapsed_ms == 0,
    {
        State { width: size.0, height: size.1, cursor_x: 0, cursor_y: 0, elapsed_ms: 0 }
    }

    /// Consumes one input event: motion updates the cursor, a resize updates
    /// the viewport, anything else changes nothing. No other bookkeeping,
    /// and never a render.
    pub fn handle_event(&mut self, event: Event)
        ensures
            (match event {
                Event::PointerMoved(x, y) => final (self).cursor_x == x && final (self).cursor_y
                    == y && final (self).width == old(self).width && final (self).height == old(
                    self,
                ).height && final (self).elapsed_ms == old(self).elapsed_ms,
                Event::Resized(w, h) => final (self).width == w && final (self).height == h
                    && final (self).cursor_x == old(self).cursor_x && final (self).cursor_y == old(
                    self,
                ).cursor_y && final (self).elapsed_ms == old(self).elapsed_ms,
                Event::CloseRequested => *final (self) == *old(self),
            }),
    {
        match event {
            Event::PointerMoved(x, y) => {
                self.cursor_x = x;
                self.cursor_y = y;
            },
            Event::Resized(w, h) => {
                self.width = w;
                self.height = h;
            },
            Event::CloseRequested => {},
        }
    }

    /// Records the elapsed time the frame loop sampled from its monotonic
    /// clock; the next visit reports exactly this value.
    pub fn set_time(&mut self, elapsed_ms: u64)
        ensures
            final (self).elapsed_ms == elapsed_ms,
            final (self).width == old(self).width,
            final (self).height == old(self).height,
            final (self).cursor_x == old(self).cursor_x,
            final (self).cursor_y == old(self).cursor_y,
    {
        self.elapsed_ms = elapsed_ms;
    }

    /// The three pairs this provider contributes: the resolution triple
    /// (width, height, 1), the cursor with its y coordinate flipped into
    /// lower-left-origin framebuffer space, and the elapsed time.
    pub open spec fn spec_pairs(self) -> Seq<(UniformName, UniformValue)> {
        seq![
            (
                UniformName::Resolution,
                UniformValue::Int3(self.width as i64, self.height as i64, 1),
            ),
            (
                UniformName::Mouse,
                UniformValue::Int2(
                    self.cursor_x as i64,
                    (self.height as i64 - self.cursor_y as i64) as i64,
                ),
            ),
            (UniformName::Time, UniformValue::TimeMs(self.elapsed_ms)),
        ]
    }

    /// Enumerates this provider's pairs for the current state.
    pub fn pairs(&self) -> (r: Vec<(UniformName, UniformValue)>)
        ensures
            r@ == self.spec_pairs(),
    {
        let mut v: Vec<(UniformName, UniformValue)> = Vec::new();
        v.push(
            (UniformName::Resolution, UniformValue::Int3(self.width as i64, self.height as i64, 1)),
        );
        let flipped: i64 = self.height as i64 - self.cursor_y as i64;
        v.push((UniformName::Mouse, UniformValue::Int2(self.cursor_x as i64, flipped)));
        v.push((UniformName::Time, UniformValue::TimeMs(self.elapsed_ms)));
        proof {
            assert(v@ =~= self.spec_pairs());
        }
        v
    }
}

/// One render pass: a compiled program and its channel textures, both as
/// handles into the caller's resource registry.
pub struct Pass {
    pub program: usize,
    pub channels: Vec<usize>,
}

impl Pass {
    /// One pair per channel texture, in channel order: channel `i` exposes
    /// the `i`-th texture handle.
    pub open spec fn spec_pairs(self) -> Seq<(UniformName, UniformValue)> {
        Seq::new(
            self.channels@.len(),
            |i: int|
                (UniformName::Channel(i as usize), UniformValue::Texture(self.channels@[i])),
        )
    }

    /// Enumerates this pass's channel pairs.
    pub fn pairs(&self) -> (r: Vec<(UniformName, UniformValue)>)
        ensures
            r@ == self.spec_pairs(),
    {
        let n = self.channels.len();
        let mut v: Vec<(UniformName, UniformValue)> = Vec::new();
        let mut i: usize = 0;
        while i < n
            invariant
                i <= n,
                n == self.channels@.len(),
                v@ =~= self.spec_pairs().subrange(0, i as int),
            decreases n - i,
        {
            v.push((UniformName::Channel(i), UniformValue::Texture(self.channels[i])));
            proof {
                assert(v@ =~= self.spec_pairs().subrange(0, i as int + 1));
            }
            i += 1;
        }
        proof {
            assert(self.spec_pairs().subrange(0, n as int) =~= self.spec_pairs());
        }
        v
    }
}

/// A snapshot of the tracked sequencer values at the current row, one float
/// bit pattern per tracked name, in track order. The external sequencer owns
/// the row position; the frame loop queries it and fills this snapshot.
pub struct SyncVals {
    pub values: Vec<u32>,
}

impl SyncVals {
    /// One pair per tracked value, in track order.
    pub open spec fn spec_pairs(self) -> Seq<(UniformName, UniformValue)> {
        Seq::new(
            self.values@.len(),
            |i: int| (UniformName::Track(i as usize), UniformValue::Bits(self.values@[i])),
        )
    }

    /// Enumerates this provider's tracked-value pairs.
    pub fn pairs(&self) -> (r: Vec<(UniformName, UniformValue)>)
        ensures
            r@ == self.spec_pairs(),
    {
        let n = self.values.len();
        let mut v: Vec<(UniformName, UniformValue)> = Vec::new();
        let mut i: usize = 0;
        while i < n
            invariant
                i <= n,
                n == self.values@.len(),
                v@ =~= self.spec_pairs().subrange(0, i as int),
            decreases n - i,
        {
            v.push((UniformName::Track(i), UniformValue::Bits(self.values[i])));
            proof {
                assert(v@ =~= self.spec_pairs().subrange(0, i as int + 1));
            }
            i += 1;
        }
        proof {
            assert(self.spec_pairs().subrange(0, n as int) =~= self.spec_pairs());
        }
        v
    }
}

/// A uniform provider: one of the three leaf variants, or two providers
/// combined into a binary tree visited left to right.
pub enum Provider {
    Frame(State),
    Channels(Pass),
    Tracks(SyncVals),
    Combined(Box<Provider>, Box<Provider>),
}

impl Provider {
    /// The pairs a visit of this provider emits, in visit order: a leaf's
    /// own pairs, or all of the left child's pairs followed by all of the
    /// right child's.
    pub open spec fn spec_pairs(self) -> Seq<(UniformName, UniformValue)>
        decreases self,
    {
        match self {
            Provider::Frame(s) => s.spec_pairs(),
            Provider::Channels(p) => p.spec_pairs(),
            Provider::Tracks(t) => t.spec_pairs(),
            Provider::Combined(a, b) => a.spec_pairs() + b.spec_pairs(),
        }
    }

    /// The leaf providers of this tree, left to right.
    pub open spec fn leaves(self) -> Seq<Provider>
        decreases self,
    {
        match self {
            Provider::Combined(a, b) => a.leaves() + b.leaves(),
            _ => seq![self],
        }
    }

    /// Enumerates this provider's pairs, in visit order.
    pub fn pairs(&self) -> (r: Vec<(UniformName, UniformValue)>)
        ensures
            r@ == self.spec_pairs(),
        decreases *self,
    {
        match self {
            Provider::Frame(s) => s.pairs(),
            Provider::Channels(p) => p.pairs(),
            Provider::Tracks(t) => t.pairs(),
            Provider::Combined(a, b) => {
                let mut left = a.pairs();
                let mut right = b.pairs();
                left.append(&mut right);
                left
            },
        }
    }
}

/// Combines two providers into one whose visit walks all of `first`'s pairs,
/// then all of `second`'s, in order, without deduplication.
pub fn combine_uniforms(first: Provider, second: Provider) -> (r: Provider)
    ensures
        r.spec_pairs() == first.spec_pairs() + second.spec_pairs(),
        r.leaves() == first.leaves() + second.leaves(),
{
    Provider::Combined(Box::new(first), Box::new(second))
}

/// The pairs of a sequence of providers, concatenated in order.
pub open spec fn flat_pairs(s: Seq<Provider>) -> Seq<(UniformName, UniformValue)>
    decreases s.len(),
{
    if s.len() == 0 {
        Seq::empty()
    } else {
        s[0].spec_pairs() + flat_pairs(s.drop_first())
    }
}

/// `flat_pairs` distributes over concatenation.
proof fn lemma_flat_pairs_append(s: Seq<Provider>, t: Seq<Provider>)
    ensures
        flat_pairs(s + t) == flat_pairs(s) + flat_pairs(t),
    decreases s.len(),
{
    if s.len() == 0 {
        assert(s + t =~= t);
        assert(Seq::<(UniformName, UniformValue)>::empty() + flat_pairs(t) =~= flat_pairs(t));
    } else {
        assert((s + t)[0] == s[0]);
        assert((s + t).drop_first() =~= s.drop_first() + t);
        lemma_flat_pairs_append(s.drop_first(), t);
        assert(s[0].spec_pairs() + (flat_pairs(s.drop_first()) + flat_pairs(t)) =~= (
        s[0].spec_pairs() + flat_pairs(s.drop_first())) + flat_pairs(t));
    }
}

/// A provider's visit emits exactly the concatenated pairs of its leaves,
/// left to right.
pub proof fn lemma_pairs_of_leaves(p: Provider)
    ensures
        p.spec_pairs() == flat_pairs(p.leaves()),
    decreases p,
{
    match p {
        Provider::Combined(a, b) => {
            lemma_pairs_of_leaves(*a);
            lemma_pairs_of_leaves(*b);
            lemma_flat_pairs_append((*a).leaves(), (*b).leaves());
        },
        _ => {
            assert(p.leaves() == seq![p]);
            assert(seq![p][0] == p);
            assert(seq![p].drop_first() =~= Seq::<Provider>::empty());
            assert(flat_pairs(Seq::<Provider>::empty()) == Seq::<(
                UniformName,
                UniformValue,
            )>::empty());
            assert(flat_pairs(seq![p]) == p.spec_pairs() + Seq::<(
                UniformName,
                UniformValue,
            )>::empty());
            assert(p.spec_pairs() + Seq::<(UniformName, UniformValue)>::empty()
                =~= p.spec_pairs());
        },
    }
}

/// Combinator visitation order depends only on the flat left-to-right
/// sequence of leaf providers: two composition trees over the same leaves,
/// whatever their nesting shape, visit exactly the same pairs in the same
/// order.
pub proof fn lemma_combine_order(p: Provider, q: Provider)
    requires
        p.leaves() == q.leaves(),
    ensures
        p.spec_pairs() == q.spec_pairs(),
{
    lemma_pairs_of_leaves(p);
    lemma_pairs_of_leaves(q);
}

} // verus!
