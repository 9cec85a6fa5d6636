use vstd::prelude::*;

use crate::debounce::Event;
use crate::keycode::{is_modifier, is_modifier_spec};
use crate::report::SLOTS;

verus! {

/// What a matrix position does on one layer.
#[derive(PartialEq, Eq, Structural, Clone, Copy, Debug)]
pub enum Action {
    /// Holds the given HID key code while pressed.
    KeyCode(u8),
    /// Falls through to the layer below.
    Trans,
    /// Activates the given layer while pressed.
    LayerShift(usize),
}

/// A key code held because of the press at (`row`, `col`).
#[derive(PartialEq, Eq, Structural, Clone, Copy, Debug)]
pub struct Held {
    pub code: u8,
    pub row: u8,
    pub col: u8,
}

/// A layer activated by the press at (`row`, `col`).
#[derive(PartialEq, Eq, Structural, Clone, Copy, Debug)]
pub struct Shift {
    pub layer: usize,
    pub row: u8,
    pub col: u8,
}

/// The action at (`r`, `c`) on layer `l`; positions outside the table
/// are transparent.
pub open spec fn lookup(layers: Seq<Seq<Seq<Action>>>, l: int, r: int, c: int) -> Action {
    if 0 <= l < layers.len() && 0 <= r < layers[l].len() && 0 <= c < layers[l][r].len() {
        layers[l][r][c]
    } else {
        Action::Trans
    }
}

/// The action a press at (`r`, `c`) takes: that of the topmost active
/// layer whose entry is not transparent, the bottom layer 0 last.
pub open spec fn resolve(layers: Seq<Seq<Seq<Action>>>, stack: Seq<Shift>, r: int, c: int) -> Action
    decreases stack.len(),
{
    if stack.len() == 0 {
        lookup(layers, 0, r, c)
    } else {
        let a = lookup(layers, stack.last().layer as int, r, c);
        if a == Action::Trans {
            resolve(layers, stack.drop_last(), r, c)
        } else {
            a
        }
    }
}

/// The key codes of the held keys, in the order they were accepted.
pub open spec fn codes_of(held: Seq<Held>) -> Seq<u8> {
    held.map_values(|h: Held| h.code)
}

/// Number of held keys that take a report slot.
pub open spec fn slot_count(held: Seq<Held>) -> nat
    decreases held.len(),
{
    if held.len() == 0 {
        0
    } else {
        slot_count(held.drop_last()) + if is_modifier_spec(held.last().code) {
            0nat
        } else {
            1nat
        }
    }
}

/// Whether a press of `code` is taken into the held keys: it is a real
/// code, not already held, and a modifier or one for which a report slot
/// is still free. Presses beyond the six slots are dropped; the keys
/// accepted earlier keep their slots.
pub open spec fn accepts(held: Seq<Held>, code: u8) -> bool {
    &&& code != 0
    &&& !codes_of(held).contains(code)
    &&& (is_modifier_spec(code) || slot_count(held) < SLOTS)
}

/// The held keys after a press at (`r`, `c`) that resolved to `a`.
pub open spec fn press_held(held: Seq<Held>, a: Action, r: u8, c: u8) -> Seq<Held> {
    match a {
        Action::KeyCode(k) => if accepts(held, k) {
            held.push(Held { code: k, row: r, col: c })
        } else {
            held
        },
        _ => held,
    }
}

/// The layer stack after a press at (`r`, `c`) that resolved to `a`;
/// a shift to a layer that does not exist does nothing.
pub open spec fn press_stack(stack: Seq<Shift>, a: Action, r: u8, c: u8, n_layers: nat) -> Seq<Shift> {
    match a {
        Action::LayerShift(l) => if l < n_layers {
            stack.push(Shift { layer: l, row: r, col: c })
        } else {
            stack
        },
        _ => stack,
    }
}

/// Whether a held key survives the release of (`r`, `c`).
pub open spec fn held_survives(r: u8, c: u8) -> spec_fn(Held) -> bool {
    |h: Held| !(h.row == r && h.col == c)
}

/// Whether an active layer survives the release of (`r`, `c`).
pub open spec fn shift_survives(r: u8, c: u8) -> spec_fn(Shift) -> bool {
    |s: Shift| !(s.row == r && s.col == c)
}

/// The held keys after the release of (`r`, `c`).
pub open spec fn release_held(held: Seq<Held>, r: u8, c: u8) -> Seq<Held> {
    held.filter(held_survives(r, c))
}

/// The layer stack after the release of (`r`, `c`).
pub open spec fn release_stack(stack: Seq<Shift>, r: u8, c: u8) -> Seq<Shift> {
    stack.filter(shift_survives(r, c))
}

/// Dropping keys never raises the number of used slots.
pub proof fn lemma_slot_count_filter(held: Seq<Held>, p: spec_fn(Held) -> bool)
    ensures
        slot_count(held.filter(p)) <= slot_count(held),
    decreases held.len(),
{
    if held.len() > 0 {
        reveal(Seq::filter);
        let sub = held.drop_last().filter(p);
        lemma_slot_count_filter(held.drop_last(), p);
        if p(held.last()) {
            assert(held.filter(p) == sub.push(held.last()));
            assert(sub.push(held.last()).drop_last() =~= sub);
        } else {
            assert(held.filter(p) == sub);
        }
    }
}

/// Dropping keys keeps every held code distinct.
pub proof fn lemma_codes_distinct_filter(held: Seq<Held>, p: spec_fn(Held) -> bool)
    requires
        codes_of(held).no_duplicates(),
    ensures
        codes_of(held.filter(p)).no_duplicates(),
    decreases held.len(),
{
    reveal(Seq::filter);
    if held.len() > 0 {
        let rest = held.drop_last();
        let sub = rest.filter(p);
        assert(codes_of(rest) =~= codes_of(held).drop_last());
        lemma_codes_distinct_filter(rest, p);
        if p(held.last()) {
            let x = held.last();
            assert forall|i: int| 0 <= i < sub.len() implies (#[trigger] sub[i]).code != x.code by {
                assert(sub.contains(sub[i]));
                rest.lemma_filter_contains_rev(p, sub[i]);
                let w = choose|m: int| 0 <= m < rest.len() && rest[m] == sub[i];
                assert(codes_of(held)[w] == sub[i].code);
                assert(codes_of(held)[held.len() - 1] == x.code);
            }
            assert(codes_of(sub.push(x)) =~= codes_of(sub).push(x.code));
        }
    }
}

/// Maps positions through a stack of layers and tracks the held keys.
pub struct Layout {
    layers: Vec<Vec<Vec<Action>>>,
    stack: Vec<Shift>,
    held: Vec<Held>,
    ticks: u64,
}

impl Layout {
    /// The layer table: `layers_view()[l][r][c]` is the action at (`r`, `c`)
    /// on layer `l`.
    pub closed spec fn layers_view(&self) -> Seq<Seq<Seq<Action>>> {
        Seq::new(
            self.layers@.len(),
            |l: int| Seq::new(self.layers@[l]@.len(), |r: int| self.layers@[l]@[r]@),
        )
    }

    /// The active layers above the bottom one, oldest first.
    pub closed spec fn stack_view(&self) -> Seq<Shift> {
        self.stack@
    }

    /// The held keys, oldest first.
    pub closed spec fn held_view(&self) -> Seq<Held> {
        self.held@
    }

    /// Ticks seen so far.
    pub closed spec fn ticks(&self) -> nat {
        self.ticks as nat
    }

    /// The bottom layer exists, every active layer exists, and the held
    /// keys fit the report's slots, each code held once.
    pub open spec fn wf(&self) -> bool {
        &&& self.layers_view().len() >= 1
        &&& forall|i: int|
            0 <= i < self.stack_view().len() ==> (#[trigger] self.stack_view()[i]).layer
                < self.layers_view().len()
        &&& slot_count(self.held_view()) <= SLOTS
        &&& codes_of(self.held_view()).no_duplicates()
    }

    /// A layout over the given table, with only the bottom layer active,
    /// nothing held and no tick seen.
    pub fn new(layers: Vec<Vec<Vec<Action>>>) -> (l: Layout)
        requires
            layers@.len() >= 1,
        ensures
            l.wf(),
            l.layers_view() == Seq::new(
                layers@.len(),
                |i: int| Seq::new(layers@[i]@.len(), |r: int| layers@[i]@[r]@),
            ),
            l.stack_view() == Seq::<Shift>::empty(),
            l.held_view() == Seq::<Held>::empty(),
            l.ticks() == 0,
    {
        Layout { layers, stack: Vec::new(), held: Vec::new(), ticks: 0 }
    }

    /// The action at (`r`, `c`) on layer `l`, transparent outside the table.
    fn lookup(&self, l: usize, r: u8, c: u8) -> (a: Action)
        ensures
            a == lookup(self.layers_view(), l as int, r as int, c as int),
    {
        if l < self.layers.len() {
            let layer = &self.layers[l];
            if (r as usize) < layer.len() {
                let row = &layer[r as usize];
                if (c as usize) < row.len() {
                    return row[c as usize];
                }
            }
        }
        Action::Trans
    }

    /// The action a press at (`r`, `c`) takes under the active layers.
    pub fn resolve(&self, r: u8, c: u8) -> (a: Action)
        ensures
            a == resolve(self.layers_view(), self.stack_view(), r as int, c as int),
    {
        let mut i: usize = self.stack.len();
        assert(self.stack@.take(i as int) =~= self.stack@);
        while i > 0
            invariant
                i <= self.stack@.len(),
                resolve(self.layers_view(), self.stack@, r as int, c as int) == resolve(
                    self.layers_view(),
                    self.stack@.take(i as int),
                    r as int,
                    c as int,
                ),
            decreases i,
        {
            let a = self.lookup(self.stack[i - 1].layer, r, c);
            proof {
                assert(self.stack@.take(i as int).drop_last() =~= self.stack@.take(i - 1));
            }
            if !matches!(a, Action::Trans) {
                return a;
            }
            i = i - 1;
        }
        proof {
            assert(self.stack@.take(0) =~= Seq::<Shift>::empty());
        }
        self.lookup(0, r, c)
    }

    /// The key codes currently held, oldest first.
    pub fn held_codes(&self) -> (v: Vec<u8>)
        ensures
            v@ == codes_of(self.held_view()),
    {
        let mut v: Vec<u8> = Vec::new();
        let mut i: usize = 0;
        while i < self.held.len()
            invariant
                i <= self.held@.len(),
                v@ =~= codes_of(self.held@.take(i as int)),
            decreases self.held.len() - i,
        {
            v.push(self.held[i].code);
            i = i + 1;
            assert(v@ =~= codes_of(self.held@.take(i as int)));
        }
        assert(self.held@.take(i as int) =~= self.held@);
        v
    }

    /// Whether a press of `code` would be taken into the held keys.
    fn accepts(&self, code: u8) -> (b: bool)
        ensures
            b == accepts(self.held_view(), code),
    {
        if code == 0 {
            return false;
        }
        let mut used: usize = 0;
        let mut i: usize = 0;
        while i < self.held.len()
            invariant
                i <= self.held@.len(),
                used == slot_count(self.held@.take(i as int)),
                used <= i,
                !codes_of(self.held@.take(i as int)).contains(code),
            decreases self.held.len() - i,
        {
            let h = self.held[i];
            proof {
                assert(self.held@.take(i + 1).drop_last() =~= self.held@.take(i as int));
                assert(codes_of(self.held@.take(i + 1)) =~= codes_of(self.held@.take(i as int)).push(h.code));
            }
            if h.code == code {
                assert(codes_of(self.held@.take(i + 1))[i as int] == code);
                assert(codes_of(self.held@)[i as int] == code);
                return false;
            }
            if !is_modifier(h.code) {
                used = used + 1;
            }
            i = i + 1;
        }
        assert(self.held@.take(i as int) =~= self.held@);
        is_modifier(code) || used < SLOTS
    }

    /// Applies one debounced event and returns the held codes.
    pub fn event(&mut self, e: Event) -> (v: Vec<u8>)
        requires
            old(self).wf(),
        ensures
            final(self).wf(),
            final(self).layers_view() == old(self).layers_view(),
            final(self).ticks() == old(self).ticks(),
            match e {
                Event::Press(r, c) => {
                    let a = resolve(old(self).layers_view(), old(self).stack_view(), r as int, c as int);
                    &&& final(self).held_view() == press_held(old(self).held_view(), a, r, c)
                    &&& final(self).stack_view() == press_stack(
                        old(self).stack_view(),
                        a,
                        r,
                        c,
                        old(self).layers_view().len(),
                    )
                },
                Event::Release(r, c) => {
                    &&& final(self).held_view() == release_held(old(self).held_view(), r, c)
                    &&& final(self).stack_view() == release_stack(old(self).stack_view(), r, c)
                },
            },
            v@ == codes_of(final(self).held_view()),
    {
        match e {
            Event::Press(r, c) => {
                let a = self.resolve(r, c);
                match a {
                    Action::KeyCode(k) => {
                        if self.accepts(k) {
                            self.held.push(Held { code: k, row: r, col: c });
                            proof {
                                assert(self.held@.drop_last() =~= old(self).held@);
                                assert(slot_count(self.held@) <= SLOTS);
                                assert(codes_of(self.held@) =~= codes_of(old(self).held@).push(k));
                            }
                            assert(self.wf());
                        }
                    },
                    Action::LayerShift(l) => {
                        if l < self.layers.len() {
                            self.stack.push(Shift { layer: l, row: r, col: c });
                            assert(forall|i: int| 0 <= i < old(self).stack@.len() ==> old(self).stack_view()[i] == #[trigger] self.stack@[i]);
                            assert(self.wf());
                        }
                    },
                    Action::Trans => {},
                }
            },
            Event::Release(r, c) => {
                self.release(r, c);
            },
        }
        self.held_codes()
    }

    /// Drops every held key and active layer that the press at (`r`, `c`)
    /// brought in.
    fn release(&mut self, r: u8, c: u8)
        requires
            old(self).wf(),
        ensures
            final(self).wf(),
            final(self).layers_view() == old(self).layers_view(),
            final(self).ticks() == old(self).ticks(),
            final(self).held_view() == release_held(old(self).held_view(), r, c),
            final(self).stack_view() == release_stack(old(self).stack_view(), r, c),
    {
        let mut held: Vec<Held> = Vec::new();
        let mut i: usize = 0;
        while i < self.held.len()
            invariant
                i <= self.held@.len(),
                held@ == self.held@.take(i as int).filter(held_survives(r, c)),
            decreases self.held.len() - i,
        {
            let h = self.held[i];
            proof {
                assert(self.held@.take(i + 1).drop_last() =~= self.held@.take(i as int));
            }
            proof {
                reveal(Seq::filter);
                assert(self.held@.take(i + 1).last() == h);
            }
            assert(held_survives(r, c)(h) == !(h.row == r && h.col == c));
            if !(h.row == r && h.col == c) {
                held.push(h);
            }
            i = i + 1;
        }
        let mut stack: Vec<Shift> = Vec::new();
        let mut j: usize = 0;
        while j < self.stack.len()
            invariant
                j <= self.stack@.len(),
                stack@ == self.stack@.take(j as int).filter(shift_survives(r, c)),
            decreases self.stack.len() - j,
        {
            let s = self.stack[j];
            proof {
                assert(self.stack@.take(j + 1).drop_last() =~= self.stack@.take(j as int));
            }
            proof {
                reveal(Seq::filter);
                assert(self.stack@.take(j + 1).last() == s);
            }
            assert(shift_survives(r, c)(s) == !(s.row == r && s.col == c));
            if !(s.row == r && s.col == c) {
                stack.push(s);
            }
            j = j + 1;
        }
        proof {
            assert(self.held@.take(i as int) =~= self.held@);
            assert(self.stack@.take(j as int) =~= self.stack@);
            lemma_slot_count_filter(self.held@, held_survives(r, c));
            lemma_codes_distinct_filter(self.held@, held_survives(r, c));
            assert forall|k: int| 0 <= k < stack@.len() implies (#[trigger] stack@[k]).layer
                < self.layers_view().len() by {
                assert(stack@.contains(stack@[k]));
                self.stack@.lemma_filter_contains_rev(shift_survives(r, c), stack@[k]);
                let w = choose|m: int| 0 <= m < self.stack@.len() && self.stack@[m] == stack@[k];
                assert(self.stack_view()[w] == stack@[k]);
            }
        }
        self.held = held;
        self.stack = stack;
    }

    /// One period of time: advances the tick counter (saturating) and
    /// returns the held codes. No time-based action exists, so the held
    /// keys and layers stay as they are.
    pub fn tick(&mut self) -> (v: Vec<u8>)
        requires
            old(self).wf(),
        ensures
            final(self).wf(),
            final(self).layers_view() == old(self).layers_view(),
            final(self).stack_view() == old(self).stack_view(),
            final(self).held_view() == old(self).held_view(),
            final(self).ticks() == if old(self).ticks() < u64::MAX {
                old(self).ticks() + 1
            } else {
                old(self).ticks()
            },
            v@ == codes_of(final(self).held_view()),
    {
        self.ticks = self.ticks.saturating_add(1);
        assert(self.layers_view() =~= old(self).layers_view());
        assert(self.stack_view() == old(self).stack_view());
        self.held_codes()
    }
}

} // verus!
