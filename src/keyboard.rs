use vstd::prelude::*;

use crate::debounce::{
    grid_events, is_grid, next_count, next_stable, row_events, Debouncer, Event, PressedKeys,
};
use crate::keycode::is_modifier_spec;
use crate::layout::{
    accepts, codes_of, held_survives, press_held, press_stack, release_held, release_stack, resolve,
    shift_survives, slot_count, Action, Held, Layout, Shift,
};
use crate::matrix::{all_read, scan, ScanError};
use crate::report::{render, report_bytes, HidReport, SLOTS};

verus! {

/// The layer stack and held keys after one event.
pub open spec fn after_event(
    layers: Seq<Seq<Seq<Action>>>,
    stack: Seq<Shift>,
    held: Seq<Held>,
    e: Event,
) -> (Seq<Shift>, Seq<Held>) {
    match e {
        Event::Press(r, c) => {
            let a = resolve(layers, stack, r as int, c as int);
            (press_stack(stack, a, r, c, layers.len()), press_held(held, a, r, c))
        },
        Event::Release(r, c) => (release_stack(stack, r, c), release_held(held, r, c)),
    }
}

/// The layer stack and held keys after the events `es`, in order.
pub open spec fn after_events(
    layers: Seq<Seq<Seq<Action>>>,
    stack: Seq<Shift>,
    held: Seq<Held>,
    es: Seq<Event>,
) -> (Seq<Shift>, Seq<Held>)
    decreases es.len(),
{
    if es.len() == 0 {
        (stack, held)
    } else {
        let p = after_events(layers, stack, held, es.drop_last());
        after_event(layers, p.0, p.1, es.last())
    }
}

/// Filtering with a predicate that every element meets changes nothing.
proof fn lemma_filter_all<A>(s: Seq<A>, p: spec_fn(A) -> bool)
    requires
        forall|i: int| 0 <= i < s.len() ==> #[trigger] p(s[i]),
    ensures
        s.filter(p) == s,
    decreases s.len(),
{
    reveal(Seq::filter);
    if s.len() > 0 {
        lemma_filter_all(s.drop_last(), p);
        assert(s.drop_last().push(s.last()) =~= s);
    }
}

/// Round trip through the layout: when nothing is held or active from
/// (`r`, `c`) and a press there resolves to a key code that can still be
/// taken, the press appends exactly that code, the one of the table
/// entry on the active layers, and the release that follows restores the
/// held keys and layers as they were.
pub proof fn lemma_layout_round_trip(
    layers: Seq<Seq<Seq<Action>>>,
    stack: Seq<Shift>,
    held: Seq<Held>,
    r: u8,
    c: u8,
    k: u8,
)
    requires
        resolve(layers, stack, r as int, c as int) == Action::KeyCode(k),
        accepts(held, k),
        forall|i: int| 0 <= i < held.len() ==> !((#[trigger] held[i]).row == r && held[i].col == c),
        forall|i: int| 0 <= i < stack.len() ==> !((#[trigger] stack[i]).row == r && stack[i].col == c),
    ensures
        after_events(layers, stack, held, seq![Event::Press(r, c)]) == (
            stack,
            held.push(Held { code: k, row: r, col: c }),
        ),
        after_events(layers, stack, held, seq![Event::Press(r, c), Event::Release(r, c)]) == (
            stack,
            held,
        ),
{
    let one = seq![Event::Press(r, c)];
    let two = seq![Event::Press(r, c), Event::Release(r, c)];
    assert(one.drop_last() =~= Seq::<Event>::empty());
    assert(two.drop_last() =~= one);
    let pushed = held.push(Held { code: k, row: r, col: c });
    reveal(Seq::filter);
    assert(pushed.drop_last() =~= held);
    lemma_filter_all(held, held_survives(r, c));
    lemma_filter_all(stack, shift_survives(r, c));
    assert(release_held(pushed, r, c) == held);
    assert(after_events(layers, stack, held, one.drop_last()) == (stack, held));
    assert(one.last() == Event::Press(r, c));
    assert(after_events(layers, stack, held, one) == after_event(layers, stack, held, Event::Press(r, c)));
    assert(after_events(layers, stack, held, one) == (stack, pushed));
    assert(two.last() == Event::Release(r, c));
    assert(after_events(layers, stack, held, two) == after_event(layers, stack, pushed, Event::Release(r, c)));
}

/// Overflow: once the held keys fill every report slot, a press of a
/// further non-modifier key is dropped and the held keys stay as they
/// are; the layout's invariant keeps the slots from ever overflowing.
pub proof fn lemma_overflow_dropped(held: Seq<Held>, r: u8, c: u8, k: u8)
    requires
        slot_count(held) >= SLOTS,
        !is_modifier_spec(k),
    ensures
        press_held(held, Action::KeyCode(k), r, c) == held,
{
}

/// A row whose samples all agree with the latched values emits nothing.
proof fn lemma_steady_row(s: Seq<bool>, n: Seq<u16>, threshold: nat, r: int, upto: int)
    requires
        upto <= s.len(),
    ensures
        row_events(s, n, s, threshold, r, upto) == Seq::<Event>::empty(),
    decreases upto,
{
    if upto > 0 {
        lemma_steady_row(s, n, threshold, r, upto - 1);
    }
}

/// A tick whose snapshot agrees with every latched key emits no event,
/// so the layer stack and held keys stay as they are.
pub proof fn lemma_steady_tick(
    s: Seq<Seq<bool>>,
    n: Seq<Seq<u16>>,
    threshold: nat,
    rows: int,
    layers: Seq<Seq<Seq<Action>>>,
    stack: Seq<Shift>,
    held: Seq<Held>,
)
    requires
        0 <= rows <= s.len(),
    ensures
        grid_events(s, n, s, threshold, rows) == Seq::<Event>::empty(),
        after_events(layers, stack, held, grid_events(s, n, s, threshold, rows)) == (stack, held),
    decreases rows,
{
    if rows > 0 {
        lemma_steady_tick(s, n, threshold, rows - 1, layers, stack, held);
        lemma_steady_row(s[rows - 1], n[rows - 1], threshold, rows - 1, s[rows - 1].len() as int);
        assert(grid_events(s, n, s, threshold, rows) =~= Seq::<Event>::empty());
    }
}

/// The periodic pipeline: debouncer and layout of one keyboard.
pub struct Keyboard {
    pub debouncer: Debouncer,
    pub layout: Layout,
}

impl Keyboard {
    pub open spec fn wf(&self) -> bool {
        self.debouncer.wf() && self.layout.wf()
    }

    /// A keyboard with a `rows` x `cols` matrix, the given debounce
    /// threshold and layer table, every key released.
    pub fn new(rows: usize, cols: usize, threshold: u16, layers: Vec<Vec<Vec<Action>>>) -> (k: Keyboard)
        requires
            rows <= 256,
            cols <= 256,
            layers@.len() >= 1,
        ensures
            k.wf(),
            k.debouncer.rows() == rows,
            k.debouncer.cols() == cols,
            k.debouncer.threshold() == threshold,
            forall|r: int, c: int|
                0 <= r < rows && 0 <= c < cols ==> !#[trigger] k.debouncer.stable_view()[r][c]
                    && k.debouncer.count_view()[r][c] == 0,
            k.layout.layers_view() == Seq::new(
                layers@.len(),
                |i: int| Seq::new(layers@[i]@.len(), |r: int| layers@[i]@[r]@),
            ),
            k.layout.stack_view() == Seq::<Shift>::empty(),
            k.layout.held_view() == Seq::<Held>::empty(),
            k.layout.ticks() == 0,
    {
        Keyboard { debouncer: Debouncer::new(rows, cols, threshold), layout: Layout::new(layers) }
    }

    /// One tick on a snapshot: debounce it, apply the events in row-major
    /// order, advance the layout's clock, and render the report.
    pub fn tick(&mut self, raw: &PressedKeys) -> (rep: HidReport)
        requires
            old(self).wf(),
            is_grid(raw@, old(self).debouncer.rows(), old(self).debouncer.cols()),
        ensures
            final(self).wf(),
            final(self).debouncer.rows() == old(self).debouncer.rows(),
            final(self).debouncer.cols() == old(self).debouncer.cols(),
            final(self).debouncer.threshold() == old(self).debouncer.threshold(),
            forall|r: int, c: int|
                0 <= r < old(self).debouncer.rows() && 0 <= c < old(self).debouncer.cols() ==> {
                    let s = old(self).debouncer.stable_view()[r][c];
                    let n = old(self).debouncer.count_view()[r][c] as nat;
                    let x = raw@[r][c];
                    let t = old(self).debouncer.threshold();
                    &&& #[trigger] final(self).debouncer.stable_view()[r][c] == next_stable(s, n, x, t)
                    &&& final(self).debouncer.count_view()[r][c] as nat == next_count(s, n, x, t)
                },
            final(self).layout.layers_view() == old(self).layout.layers_view(),
            (final(self).layout.stack_view(), final(self).layout.held_view()) == after_events(
                old(self).layout.layers_view(),
                old(self).layout.stack_view(),
                old(self).layout.held_view(),
                grid_events(
                    old(self).debouncer.stable_view(),
                    old(self).debouncer.count_view(),
                    raw@,
                    old(self).debouncer.threshold(),
                    old(self).debouncer.rows() as int,
                ),
            ),
            final(self).layout.ticks() == if old(self).layout.ticks() < u64::MAX {
                old(self).layout.ticks() + 1
            } else {
                old(self).layout.ticks()
            },
            rep.wf(),
            rep@ == report_bytes(codes_of(final(self).layout.held_view())),
    {
        let events = self.debouncer.events(raw);
        let ghost layers = self.layout.layers_view();
        let ghost stack0 = self.layout.stack_view();
        let ghost held0 = self.layout.held_view();
        let ghost ticks0 = self.layout.ticks();
        let ghost deb = self.debouncer;
        let mut i: usize = 0;
        assert(events@.take(0) =~= Seq::<Event>::empty());
        while i < events.len()
            invariant
                self.debouncer == deb,
                deb.wf(),
                self.layout.wf(),
                self.layout.layers_view() == layers,
                self.layout.ticks() == ticks0,
                i <= events@.len(),
                (self.layout.stack_view(), self.layout.held_view()) == after_events(
                    layers,
                    stack0,
                    held0,
                    events@.take(i as int),
                ),
            decreases events.len() - i,
        {
            let e = events[i];
            let _ = self.layout.event(e);
            proof {
                assert(events@.take(i + 1).drop_last() =~= events@.take(i as int));
            }
            i = i + 1;
        }
        assert(events@.take(i as int) =~= events@);
        let codes = self.layout.tick();
        render(&codes)
    }

    /// One tick on the column levels of a scan (`levels[row][col]`, true
    /// for high). A failed read abandons the tick: nothing changes and the
    /// error is returned; otherwise this is `tick` on the scanned snapshot.
    pub fn scan_tick(&mut self, levels: &Vec<Vec<Result<bool, ScanError>>>) -> (res: Result<HidReport, ScanError>)
        requires
            old(self).wf(),
            is_grid(
                levels@.map_values(|row: Vec<Result<bool, ScanError>>| row@),
                old(self).debouncer.rows(),
                old(self).debouncer.cols(),
            ),
        ensures
            final(self).wf(),
            res.is_err() == !all_read(levels@.map_values(|row: Vec<Result<bool, ScanError>>| row@)),
            res.is_err() ==> *final(self) == *old(self),
            res matches Ok(rep) ==> rep.wf() && rep@ == report_bytes(codes_of(final(self).layout.held_view())),
    {
        match scan(levels) {
            Ok(raw) => Ok(self.tick(&raw)),
            Err(e) => Err(e),
        }
    }
}

} // verus!
