use vstd::prelude::*;

verus! {

/// A debounced change of one switch of the matrix, at (row, column).
#[derive(PartialEq, Eq, Structural, Clone, Copy, Debug)]
pub enum Event {
    Press(u8, u8),
    Release(u8, u8),
}

/// One snapshot of the switch matrix: `keys[row][col]` is true when that
/// switch reads closed.
pub struct PressedKeys {
    pub keys: Vec<Vec<bool>>,
}

/// Whether `g` is a grid of `rows` rows of `cols` entries each.
pub open spec fn is_grid<T>(g: Seq<Seq<T>>, rows: nat, cols: nat) -> bool {
    g.len() == rows && forall|r: int| 0 <= r < rows ==> (#[trigger] g[r]).len() == cols
}

impl View for PressedKeys {
    type V = Seq<Seq<bool>>;

    open spec fn view(&self) -> Seq<Seq<bool>> {
        Seq::new(self.keys@.len(), |r: int| self.keys@[r]@)
    }
}

/// Whether a key whose latched value is `stable`, after `count` earlier
/// disagreeing samples, flips on the sample `raw`: it does once the
/// disagreement has lasted `threshold` consecutive samples.
pub open spec fn flips(stable: bool, count: nat, raw: bool, threshold: nat) -> bool {
    raw != stable && count + 1 >= threshold
}

/// The latched value of a key after one sample.
pub open spec fn next_stable(stable: bool, count: nat, raw: bool, threshold: nat) -> bool {
    if flips(stable, count, raw, threshold) {
        raw
    } else {
        stable
    }
}

/// The disagreement counter of a key after one sample: reset when the
/// sample agrees or the key flips, incremented otherwise.
pub open spec fn next_count(stable: bool, count: nat, raw: bool, threshold: nat) -> nat {
    if raw == stable || flips(stable, count, raw, threshold) {
        0
    } else {
        count + 1
    }
}

/// The event a flip of the key at (`r`, `c`) to `pressed` produces.
pub open spec fn key_event(r: int, c: int, pressed: bool) -> Event {
    if pressed {
        Event::Press(r as u8, c as u8)
    } else {
        Event::Release(r as u8, c as u8)
    }
}

/// Events of the first `upto` keys of row `r`, in column order.
pub open spec fn row_events(
    s: Seq<bool>,
    n: Seq<u16>,
    x: Seq<bool>,
    threshold: nat,
    r: int,
    upto: int,
) -> Seq<Event>
    decreases upto,
{
    if upto <= 0 {
        Seq::empty()
    } else {
        let p = row_events(s, n, x, threshold, r, upto - 1);
        let c = upto - 1;
        if flips(s[c], n[c] as nat, x[c], threshold) {
            p.push(key_event(r, c, x[c]))
        } else {
            p
        }
    }
}

/// Events of the first `upto` rows of the grid, in row-major order.
pub open spec fn grid_events(
    s: Seq<Seq<bool>>,
    n: Seq<Seq<u16>>,
    x: Seq<Seq<bool>>,
    threshold: nat,
    upto: int,
) -> Seq<Event>
    decreases upto,
{
    if upto <= 0 {
        Seq::empty()
    } else {
        grid_events(s, n, x, threshold, upto - 1) + row_events(
            s[upto - 1],
            n[upto - 1],
            x[upto - 1],
            threshold,
            upto - 1,
            x[upto - 1].len() as int,
        )
    }
}

/// The latched value and counter of one key after the samples `xs`, in
/// order.
pub open spec fn key_after(stable: bool, count: nat, xs: Seq<bool>, threshold: nat) -> (bool, nat)
    decreases xs.len(),
{
    if xs.len() == 0 {
        (stable, count)
    } else {
        let p = key_after(stable, count, xs.drop_last(), threshold);
        (next_stable(p.0, p.1, xs.last(), threshold), next_count(p.0, p.1, xs.last(), threshold))
    }
}

/// How many times one key flips, that is emits an event, over the
/// samples `xs`.
pub open spec fn flip_count(stable: bool, count: nat, xs: Seq<bool>, threshold: nat) -> nat
    decreases xs.len(),
{
    if xs.len() == 0 {
        0
    } else {
        let p = key_after(stable, count, xs.drop_last(), threshold);
        flip_count(stable, count, xs.drop_last(), threshold) + if flips(p.0, p.1, xs.last(), threshold) {
            1nat
        } else {
            0nat
        }
    }
}

/// Number of samples at the end of `xs` equal to `v`.
pub open spec fn trailing_run(xs: Seq<bool>, v: bool) -> nat
    decreases xs.len(),
{
    if xs.len() == 0 {
        0
    } else if xs.last() == v {
        trailing_run(xs.drop_last(), v) + 1
    } else {
        0
    }
}

/// Whether `xs` holds `n` consecutive samples equal to `v`.
pub open spec fn has_run(xs: Seq<bool>, v: bool, n: nat) -> bool
    decreases xs.len(),
{
    xs.len() > 0 && (has_run(xs.drop_last(), v, n) || trailing_run(xs, v) >= n)
}

/// While a settled key has not flipped, it keeps its value and its
/// counter is the length of the current run of disagreeing samples.
proof fn lemma_no_flip_state(s: bool, xs: Seq<bool>, threshold: nat)
    requires
        threshold >= 1,
        flip_count(s, 0, xs, threshold) == 0,
    ensures
        key_after(s, 0, xs, threshold) == (s, trailing_run(xs, !s)),
        trailing_run(xs, !s) < threshold,
    decreases xs.len(),
{
    if xs.len() > 0 {
        lemma_no_flip_state(s, xs.drop_last(), threshold);
    }
}

/// Debounce stability: a key settled at `s` flips during the samples
/// `xs` exactly when they hold `threshold` consecutive samples of the
/// other value. Shorter flicker never emits an event.
pub proof fn lemma_debounce_stability(s: bool, xs: Seq<bool>, threshold: nat)
    requires
        threshold >= 1,
    ensures
        flip_count(s, 0, xs, threshold) > 0 <==> has_run(xs, !s, threshold),
    decreases xs.len(),
{
    if xs.len() > 0 {
        let p = xs.drop_last();
        lemma_debounce_stability(s, p, threshold);
        if flip_count(s, 0, p, threshold) == 0 {
            lemma_no_flip_state(s, p, threshold);
        }
    }
}

/// The samples are the concatenation of two runs: the key's state and
/// flips after `a + b` are those after `b` from the state after `a`.
pub proof fn lemma_key_after_concat(stable: bool, count: nat, a: Seq<bool>, b: Seq<bool>, threshold: nat)
    ensures
        key_after(stable, count, a + b, threshold) == key_after(
            key_after(stable, count, a, threshold).0,
            key_after(stable, count, a, threshold).1,
            b,
            threshold,
        ),
        flip_count(stable, count, a + b, threshold) == flip_count(stable, count, a, threshold)
            + flip_count(
            key_after(stable, count, a, threshold).0,
            key_after(stable, count, a, threshold).1,
            b,
            threshold,
        ),
    decreases b.len(),
{
    if b.len() == 0 {
        assert(a + b =~= a);
    } else {
        assert((a + b).drop_last() =~= a + b.drop_last());
        lemma_key_after_concat(stable, count, a, b.drop_last(), threshold);
    }
}

/// A settled key fed `k <= threshold` samples of the other value has
/// flipped once if `k` reached the threshold, and not at all before.
pub proof fn lemma_sustained(s: bool, k: nat, threshold: nat)
    requires
        threshold >= 1,
        k <= threshold,
    ensures
        key_after(s, 0, Seq::new(k, |i: int| !s), threshold) == (if k < threshold {
            (s, k)
        } else {
            (!s, 0nat)
        }),
        flip_count(s, 0, Seq::new(k, |i: int| !s), threshold) == (if k < threshold {
            0nat
        } else {
            1nat
        }),
    decreases k,
{
    if k > 0 {
        lemma_sustained(s, (k - 1) as nat, threshold);
        assert(Seq::new(k, |i: int| !s).drop_last() =~= Seq::new((k - 1) as nat, |i: int| !s));
    }
}

/// Round trip of one key: from released and settled, `threshold` pressed
/// samples then `threshold` released samples flip it exactly twice, to
/// pressed at the end of the first run (a press event) and back to
/// released at the end of the second (a release event), leaving it
/// settled again.
pub proof fn lemma_key_round_trip(threshold: nat)
    requires
        threshold >= 1,
    ensures
        ({
            let down = Seq::new(threshold, |i: int| true);
            let up = Seq::new(threshold, |i: int| false);
            &&& key_after(false, 0, down, threshold) == (true, 0nat)
            &&& flip_count(false, 0, down, threshold) == 1
            &&& key_after(false, 0, down + up, threshold) == (false, 0nat)
            &&& flip_count(false, 0, down + up, threshold) == 2
        }),
{
    let down = Seq::new(threshold, |i: int| true);
    let up = Seq::new(threshold, |i: int| false);
    lemma_sustained(false, threshold, threshold);
    lemma_sustained(true, threshold, threshold);
    assert(down =~= Seq::new(threshold, |i: int| !false));
    assert(up =~= Seq::new(threshold, |i: int| !true));
    lemma_key_after_concat(false, 0, down, up, threshold);
}

/// Filters raw matrix snapshots into press and release events, keeping a
/// latched value and a disagreement counter for every key.
pub struct Debouncer {
    rows: usize,
    cols: usize,
    threshold: u16,
    stable: Vec<Vec<bool>>,
    counts: Vec<Vec<u16>>,
}

impl Debouncer {
    pub closed spec fn rows(&self) -> nat {
        self.rows as nat
    }

    pub closed spec fn cols(&self) -> nat {
        self.cols as nat
    }

    pub closed spec fn threshold(&self) -> nat {
        self.threshold as nat
    }

    /// The latched grid.
    pub closed spec fn stable_view(&self) -> Seq<Seq<bool>> {
        Seq::new(self.stable@.len(), |r: int| self.stable@[r]@)
    }

    /// The disagreement counters.
    pub closed spec fn count_view(&self) -> Seq<Seq<u16>> {
        Seq::new(self.counts@.len(), |r: int| self.counts@[r]@)
    }

    /// Both grids have the matrix's shape, coordinates fit a byte, and no
    /// counter has reached the threshold.
    pub open spec fn wf(&self) -> bool {
        &&& self.rows() <= 256
        &&& self.cols() <= 256
        &&& is_grid(self.stable_view(), self.rows(), self.cols())
        &&& is_grid(self.count_view(), self.rows(), self.cols())
        &&& forall|r: int, c: int|
            0 <= r < self.rows() && 0 <= c < self.cols() ==> {
                let k = #[trigger] self.count_view()[r][c];
                k == 0 || (k as nat) < self.threshold()
            }
    }

    /// A debouncer for a `rows` x `cols` matrix, every key released and
    /// settled, that flips a key after `threshold` consecutive disagreeing
    /// samples.
    pub fn new(rows: usize, cols: usize, threshold: u16) -> (d: Debouncer)
        requires
            rows <= 256,
            cols <= 256,
        ensures
            d.wf(),
            d.rows() == rows,
            d.cols() == cols,
            d.threshold() == threshold,
            forall|r: int, c: int|
                0 <= r < rows && 0 <= c < cols ==> !#[trigger] d.stable_view()[r][c]
                    && d.count_view()[r][c] == 0,
    {
        let mut stable: Vec<Vec<bool>> = Vec::new();
        let mut counts: Vec<Vec<u16>> = Vec::new();
        let mut r: usize = 0;
        while r < rows
            invariant
                r <= rows,
                stable@.len() == r,
                counts@.len() == r,
                forall|i: int| 0 <= i < r ==> (#[trigger] stable@[i])@ == Seq::new(cols as nat, |j: int| false),
                forall|i: int| 0 <= i < r ==> (#[trigger] counts@[i])@ == Seq::new(cols as nat, |j: int| 0u16),
            decreases rows - r,
        {
            let mut srow: Vec<bool> = Vec::new();
            let mut crow: Vec<u16> = Vec::new();
            let mut c: usize = 0;
            while c < cols
                invariant
                    c <= cols,
                    srow@ == Seq::new(c as nat, |j: int| false),
                    crow@ == Seq::new(c as nat, |j: int| 0u16),
                decreases cols - c,
            {
                srow.push(false);
                crow.push(0);
                c = c + 1;
                assert(srow@ =~= Seq::new(c as nat, |j: int| false));
                assert(crow@ =~= Seq::new(c as nat, |j: int| 0u16));
            }
            stable.push(srow);
            counts.push(crow);
            r = r + 1;
        }
        Debouncer { rows, cols, threshold, stable, counts }
    }

    /// The latched value of the key at (`r`, `c`).
    pub fn is_pressed(&self, r: usize, c: usize) -> (b: bool)
        requires
            self.wf(),
            r < self.rows(),
            c < self.cols(),
        ensures
            b == self.stable_view()[r as int][c as int],
    {
        assert(self.stable_view()[r as int] == self.stable@[r as int]@);
        self.stable[r][c]
    }

    /// Takes one raw snapshot: every key is stepped once, and the keys that
    /// flip yield their events in row-major order.
    pub fn events(&mut self, raw: &PressedKeys) -> (out: Vec<Event>)
        requires
            old(self).wf(),
            is_grid(raw@, old(self).rows(), old(self).cols()),
        ensures
            final(self).wf(),
            final(self).rows() == old(self).rows(),
            final(self).cols() == old(self).cols(),
            final(self).threshold() == old(self).threshold(),
            forall|r: int, c: int|
                0 <= r < old(self).rows() && 0 <= c < old(self).cols() ==> {
                    let s = old(self).stable_view()[r][c];
                    let n = old(self).count_view()[r][c] as nat;
                    let x = raw@[r][c];
                    &&& #[trigger] final(self).stable_view()[r][c] == next_stable(s, n, x, old(self).threshold())
                    &&& final(self).count_view()[r][c] as nat == next_count(s, n, x, old(self).threshold())
                },
            out@ == grid_events(
                old(self).stable_view(),
                old(self).count_view(),
                raw@,
                old(self).threshold(),
                old(self).rows() as int,
            ),
    {
        let t = self.threshold;
        let ghost s0 = self.stable_view();
        let ghost n0 = self.count_view();
        let ghost tn = t as nat;
        let mut new_stable: Vec<Vec<bool>> = Vec::new();
        let mut new_counts: Vec<Vec<u16>> = Vec::new();
        let mut out: Vec<Event> = Vec::new();
        let mut r: usize = 0;
        while r < self.rows
            invariant
                self.wf(),
                self.stable_view() == s0,
                self.count_view() == n0,
                self.threshold == t,
                tn == t as nat,
                is_grid(raw@, self.rows(), self.cols()),
                r <= self.rows,
                new_stable@.len() == r,
                new_counts@.len() == r,
                forall|i: int| 0 <= i < r ==> (#[trigger] new_stable@[i])@.len() == self.cols
                    && new_counts@[i]@.len() == self.cols,
                forall|i: int, j: int| 0 <= i < r && 0 <= j < self.cols ==> {
                    let s = s0[i][j];
                    let n = n0[i][j] as nat;
                    let x = raw@[i][j];
                    &&& #[trigger] new_stable@[i]@[j] == next_stable(s, n, x, tn)
                    &&& new_counts@[i]@[j] as nat == next_count(s, n, x, tn)
                },
                out@ == grid_events(s0, n0, raw@, tn, r as int),
            decreases self.rows - r,
        {
            let srow = &self.stable[r];
            let crow = &self.counts[r];
            let xrow = &raw.keys[r];
            let ghost before = out@;
            assert(s0[r as int] == srow@);
            assert(n0[r as int] == crow@);
            assert(raw@[r as int] == xrow@);
            let mut ns: Vec<bool> = Vec::new();
            let mut nc: Vec<u16> = Vec::new();
            let mut c: usize = 0;
            while c < self.cols
                invariant
                    self.wf(),
                    self.stable_view() == s0,
                    self.count_view() == n0,
                    self.threshold == t,
                    tn == t as nat,
                    r < self.rows,
                    srow@ == s0[r as int],
                    crow@ == n0[r as int],
                    xrow@ == raw@[r as int],
                    srow@.len() == self.cols,
                    crow@.len() == self.cols,
                    xrow@.len() == self.cols,
                    c <= self.cols,
                    ns@.len() == c,
                    nc@.len() == c,
                    forall|j: int| 0 <= j < c ==> {
                        let s = srow@[j];
                        let n = crow@[j] as nat;
                        let x = xrow@[j];
                        &&& #[trigger] ns@[j] == next_stable(s, n, x, tn)
                        &&& nc@[j] as nat == next_count(s, n, x, tn)
                    },
                    out@ == before + row_events(srow@, crow@, xrow@, tn, r as int, c as int),
                decreases self.cols - c,
            {
                let s = srow[c];
                let n = crow[c];
                let x = xrow[c];
                assert(n == 0 || n < t) by {
                    assert(n == self.count_view()[r as int][c as int]);
                }
                let mut sv = s;
                let mut cv: u16 = 0;
                if x != s {
                    if n + 1 >= t {
                        sv = x;
                        let e = if x {
                            Event::Press(r as u8, c as u8)
                        } else {
                            Event::Release(r as u8, c as u8)
                        };
                        out.push(e);
                    } else {
                        cv = n + 1;
                    }
                }
                ns.push(sv);
                nc.push(cv);
                assert(ns@[c as int] == next_stable(s, n as nat, x, tn));
                assert(nc@[c as int] as nat == next_count(s, n as nat, x, tn));
                c = c + 1;
            }
            let ghost nsv = ns@;
            let ghost ncv = nc@;
            new_stable.push(ns);
            new_counts.push(nc);
            proof {
                assert forall|i: int, j: int| 0 <= i <= r && 0 <= j < self.cols implies {
                    let s = s0[i][j];
                    let n = n0[i][j] as nat;
                    let x = raw@[i][j];
                    &&& #[trigger] new_stable@[i]@[j] == next_stable(s, n, x, tn)
                    &&& new_counts@[i]@[j] as nat == next_count(s, n, x, tn)
                } by {
                    if i == r {
                        assert(new_stable@[i]@ == nsv);
                        assert(new_counts@[i]@ == ncv);
                        assert(nsv[j] == next_stable(srow@[j], crow@[j] as nat, xrow@[j], tn));
                    }
                }
            }
            r = r + 1;
            proof {
                assert(grid_events(s0, n0, raw@, tn, r as int) =~= before + row_events(
                    s0[r - 1],
                    n0[r - 1],
                    raw@[r - 1],
                    tn,
                    r - 1,
                    raw@[r - 1].len() as int,
                ));
            }
        }
        self.stable = new_stable;
        self.counts = new_counts;
        proof {
            assert(self.stable_view().len() == self.rows());
            assert forall|i: int| 0 <= i < self.rows() implies #[trigger] self.stable_view()[i]
                == new_stable@[i]@ && self.count_view()[i] == new_counts@[i]@
                && new_counts@[i]@.len() == self.cols() by {
                assert(new_stable@[i]@.len() == self.cols());
            }
            assert(is_grid(self.stable_view(), self.rows(), self.cols()));
            assert forall|i: int| 0 <= i < self.rows() implies (#[trigger] self.count_view()[i]).len()
                == self.cols() by {
                assert(new_stable@[i]@.len() == self.cols());
            }
            assert forall|i: int, j: int|
                0 <= i < self.rows() && 0 <= j < self.cols() implies {
                    let k = #[trigger] self.count_view()[i][j];
                    k == 0 || (k as nat) < self.threshold()
                } by {
                assert(self.count_view()[i][j] == new_counts@[i]@[j]);
                assert(new_stable@[i]@[j] == next_stable(s0[i][j], n0[i][j] as nat, raw@[i][j], tn));
            }
        }
        out
    }
}

} // verus!
