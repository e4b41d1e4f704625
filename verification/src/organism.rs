//! The ring simulation engine.
//!
//! An `Organism` owns an ordered, circular sequence of cells (element `i`
//! is ring-adjacent to `i + 1`, and the last to the first) together with
//! the simulation parameters. Each tick the driver calls `fill_gaps` (mesh
//! refinement) and then `expand` (force computation and integration).
//!
//! This engine exists in two dialects: a simpler, historical one with a
//! fixed damping factor, force scale and cutoff baked in, and the general
//! one with explicit `bias` and `noise` parameters and a cutoff-gated
//! force sum. The general dialect is the canonical behaviour and is the
//! one implemented here; the fixed-constant variant is deliberately not
//! reproduced beside it.
use crate::cells::Cell;
use crate::fp::{clampi, mdc, mul_div_clamp, tdiv, MAXV, SCALE};
use crate::trig::{s_cos_turns, s_sine_turns, unit_vec};
use crate::vectors::{s_add, s_lsq, s_mag, s_scale, s_sub, Vector2};
use vstd::arithmetic::div_mod::{
    lemma_div_is_ordered, lemma_fundamental_div_mod_converse, lemma_div_pos_is_pos,
};
use vstd::prelude::*;

verus! {

/// Why construction was refused; nothing is built when it is.
#[derive(Clone, Copy, PartialEq, Eq, Structural, Debug)]
pub enum ConfigError {
    /// The ring needs at least one cell.
    ZeroCount,
    /// The initial radius must be positive.
    NonPositiveRadius,
    /// The spatiality threshold must be positive.
    NonPositiveSpatiality,
}

/// Damping: four fifths of the velocity, truncated — the fixed-point `0.8`
/// applied to the whole updated velocity, every tick, unconditionally.
pub const DAMPING: i64 = 800_000;

/// The angle of cell `i` out of `size`, as a fraction of a turn.
pub open spec fn s_turn(i: int, size: int) -> int {
    tdiv(i * SCALE, size)
}

/// Where cell `i` of `size` starts: on the circle of the given radius
/// around the center.
pub open spec fn s_start_pos(center: (int, int), radius: int, i: int, size: int) -> (int, int) {
    s_add(
        center,
        (
            mdc(radius, s_cos_turns(s_turn(i, size)), SCALE as int),
            mdc(radius, s_sine_turns(s_turn(i, size)), SCALE as int),
        ),
    )
}

/// The repulsive force a cell at `q` contributes to the net force on a
/// cell at `p`: zero beyond the cutoff `2 * spatiality` and for a
/// degenerate pair (squared distance rounding to zero), else the vector
/// from `q` toward `p` rescaled to magnitude `1 / |p - q|^2`.
pub open spec fn s_contrib(p: (int, int), q: (int, int), spatiality: int) -> (int, int) {
    let d = s_sub(p, q);
    let l = s_lsq(d);
    if l == 0 || l > 2 * spatiality {
        (0int, 0int)
    } else {
        s_mag(d, mdc(SCALE as int, SCALE as int, l))
    }
}

/// The net force on cell `i`, summed over the cells before index `j` in
/// ring order; cell `i` itself contributes nothing.
pub open spec fn s_net_force_upto(cells: Seq<Cell>, spatiality: int, i: int, j: int) -> (int, int)
    decreases j,
{
    if j <= 0 {
        (0int, 0int)
    } else if j - 1 == i {
        s_net_force_upto(cells, spatiality, i, j - 1)
    } else {
        s_add(
            s_net_force_upto(cells, spatiality, i, j - 1),
            s_contrib(cells[i].position@, cells[j - 1].position@, spatiality),
        )
    }
}

/// The net repulsive force on cell `i` from the whole ring, over a
/// snapshot of the positions taken before any cell moves.
pub open spec fn s_net_force(cells: Seq<Cell>, spatiality: int, i: int) -> (int, int) {
    s_net_force_upto(cells, spatiality, i, cells.len() as int)
}

/// One velocity update: the acceleration `force * bias / mass` is added to
/// the velocity, and the whole result is damped.
pub open spec fn s_new_velocity(vel: (int, int), force: (int, int), bias: int, mass: int) -> (
    int,
    int,
) {
    let accel = s_scale(force, mdc(bias, SCALE as int, mass));
    s_scale(s_add(vel, accel), DAMPING as int)
}

/// How `expand` rewrites the ring: same length, every cell keeps its
/// identity and mass, takes the damped, biased velocity from the net force
/// over the old positions, and moves by that new velocity.
pub open spec fn expand_post(
    old_cells: Seq<Cell>,
    spatiality: int,
    bias: int,
    new_cells: Seq<Cell>,
) -> bool {
    &&& new_cells.len() == old_cells.len()
    &&& forall|i: int|
        0 <= i < old_cells.len() ==> {
            let v2 = s_new_velocity(
                old_cells[i].velocity@,
                s_net_force(old_cells, spatiality, i),
                bias,
                old_cells[i].mass as int,
            );
            &&& (#[trigger] new_cells[i]).id == old_cells[i].id
            &&& new_cells[i].mass == old_cells[i].mass
            &&& new_cells[i].velocity@ == v2
            &&& new_cells[i].position@ == s_add(old_cells[i].position@, v2)
        }
}

/// The edge from `a` to `b` is oversized: its squared length is above the
/// spatiality threshold.
pub open spec fn oversized(a: Cell, b: Cell, spatiality: int) -> bool {
    s_lsq(s_sub(b.position@, a.position@)) > spatiality
}

/// The cell inserted on the edge from `a` to `b`: at
/// `a + t * (b - a)` for the interpolation parameter `t`, with the fresh
/// id, at rest, mass one.
pub open spec fn gap_cell(a: Cell, b: Cell, t: int, id: u64) -> Cell {
    Cell {
        id,
        position: crate::vectors::v_make(
            s_add(a.position@, s_scale(s_sub(b.position@, a.position@), t)),
        ),
        velocity: crate::vectors::v_make((0int, 0int)),
        mass: SCALE,
    }
}

/// The ring after one refinement pass over the consecutive pairs from
/// `lo` on (the last pair wrapping around to the first cell): each
/// original cell, followed by one inserted cell exactly when its edge to
/// the next original cell is oversized. `ts` gives one interpolation
/// parameter per pair; `nid` the next fresh id. Only one cell is ever
/// inserted per oversized edge per pass, so an edge more than twice the
/// threshold takes several ticks to close.
pub open spec fn filled_from(cells: Seq<Cell>, ts: Seq<int>, sp: int, lo: int, nid: u64) -> Seq<
    Cell,
>
    decreases cells.len() - lo,
{
    let n = cells.len() as int;
    if lo < 0 || lo >= n {
        Seq::<Cell>::empty()
    } else {
        let b = if lo + 1 == n {
            cells[0]
        } else {
            cells[lo + 1]
        };
        if oversized(cells[lo], b, sp) {
            seq![cells[lo], gap_cell(cells[lo], b, ts[lo], nid)] + filled_from(
                cells,
                ts,
                sp,
                lo + 1,
                (nid + 1) as u64,
            )
        } else {
            seq![cells[lo]] + filled_from(cells, ts, sp, lo + 1, nid)
        }
    }
}

/// The ring of cells and the simulation parameters.
pub struct Organism {
    cells: Vec<Cell>,
    spatiality: i64,
    bias: i64,
    noise: bool,
    next_id: u64,
}

impl View for Organism {
    type V = Seq<Cell>;

    /// The mathematical value: the ordered sequence of cells.
    closed spec fn view(&self) -> Seq<Cell> {
        self.cells@
    }
}

impl Organism {
    /// The squared-distance threshold driving both the force cutoff and
    /// the gap-filling trigger.
    pub closed spec fn spat_of(self) -> int {
        self.spatiality as int
    }

    /// The scalar turning a net force into an acceleration.
    pub closed spec fn bias_of(self) -> int {
        self.bias as int
    }

    /// Whether gap insertion jitters the interpolation parameter.
    pub closed spec fn noise_of(self) -> bool {
        self.noise
    }

    /// The next fresh cell id; ids are allocated by this monotonic counter
    /// so they stay unique.
    pub closed spec fn next_id_of(self) -> u64 {
        self.next_id
    }

    /// Well-formedness: at least one cell; the id counter equals the cell
    /// count (one id ever allocated per cell); every id is below the
    /// counter and the ids are pairwise distinct; every mass is one; the
    /// parameters are clamped, the threshold positive.
    pub closed spec fn wf(self) -> bool {
        &&& self.cells@.len() >= 1
        &&& self.next_id as int == self.cells@.len()
        &&& 0 < self.spatiality <= MAXV
        &&& -MAXV <= self.bias <= MAXV
        &&& forall|i: int|
            0 <= i < self.cells@.len() ==> (#[trigger] self.cells@[i]).mass == SCALE
                && self.cells@[i].id < self.next_id
        &&& forall|i: int, j: int|
            #![trigger self.cells@[i].id, self.cells@[j].id]
            0 <= i < self.cells@.len() && 0 <= j < self.cells@.len() && i != j
                ==> self.cells@[i].id != self.cells@[j].id
    }

    /// The number of cells in the ring.
    pub fn len(&self) -> (n: usize)
        ensures
            n == self@.len(),
    {
        self.cells.len()
    }

    /// The current ordered positions, for the external renderer to draw as
    /// a closed loop.
    pub fn positions(&self) -> (ps: Vec<Vector2>)
        ensures
            ps@.len() == self@.len(),
            forall|i: int| 0 <= i < self@.len() ==> ps@[i] == (#[trigger] self@[i]).position,
    {
        let mut ps: Vec<Vector2> = Vec::new();
        let n = self.cells.len();
        for i in 0..n
            invariant
                n == self@.len(),
                ps@.len() == i,
                forall|k: int| 0 <= k < i ==> ps@[k] == (#[trigger] self@[k]).position,
        {
            ps.push(self.cells[i].position);
        }
        ps
    }

    /// Builds a ring of `size` cells placed evenly on the circle of the
    /// given radius around `pos`, all at rest. Construction is refused —
    /// and nothing is built — exactly when `size` is zero, the radius is
    /// not positive, or the spatiality threshold is not positive.
    pub fn new(
        pos: Vector2,
        size: u32,
        radius: i64,
        spatiality: i64,
        bias: i64,
        noise: bool,
    ) -> (r: Result<Organism, ConfigError>)
        ensures
            size == 0 ==> r == Result::<Organism, ConfigError>::Err(ConfigError::ZeroCount),
            size != 0 && radius <= 0 ==> r == Result::<Organism, ConfigError>::Err(
                ConfigError::NonPositiveRadius,
            ),
            size != 0 && radius > 0 && spatiality <= 0 ==> r == Result::<
                Organism,
                ConfigError,
            >::Err(ConfigError::NonPositiveSpatiality),
            size != 0 && radius > 0 && spatiality > 0 ==> r is Ok && {
                let o = r->Ok_0;
                &&& o.wf()
                &&& o@.len() == size
                &&& o.spat_of() == clampi(spatiality as int)
                &&& o.bias_of() == clampi(bias as int)
                &&& o.noise_of() == noise
                &&& o.next_id_of() == size
                &&& forall|i: int|
                    0 <= i < size ==> {
                        &&& (#[trigger] o@[i]).id == i
                        &&& o@[i].velocity@ == (0int, 0int)
                        &&& o@[i].mass == SCALE
                        &&& o@[i].position@ == s_start_pos(pos@, radius as int, i, size as int)
                    }
            },
    {
        if size == 0 {
            return Err(ConfigError::ZeroCount);
        }
        if radius <= 0 {
            return Err(ConfigError::NonPositiveRadius);
        }
        if spatiality <= 0 {
            return Err(ConfigError::NonPositiveSpatiality);
        }
        let mut cells: Vec<Cell> = Vec::new();
        for i in 0..size
            invariant
                cells@.len() == i,
                size >= 1,
                forall|k: int|
                    0 <= k < i ==> {
                        &&& (#[trigger] cells@[k]).id == k
                        &&& cells@[k].velocity@ == (0int, 0int)
                        &&& cells@[k].mass == SCALE
                        &&& cells@[k].position@ == s_start_pos(pos@, radius as int, k, size as int)
                    },
        {
            let t64: u64 = (i as u64) * (SCALE as u64) / (size as u64);
            proof {
                let si = SCALE as int;
                assert((size as int) * si - 1 == (si - 1) * (size as int) + (size as int - 1));
                lemma_fundamental_div_mod_converse(
                    (size as int) * si - 1,
                    size as int,
                    si - 1,
                    size as int - 1,
                );
                assert((i as int) * si <= (size as int) * si - si);
                lemma_div_is_ordered((i as int) * si, (size as int) * si - 1, size as int);
                lemma_div_pos_is_pos((i as int) * si, size as int);
                assert(t64 as int == s_turn(i as int, size as int));
                assert(0 <= t64 < SCALE);
            }
            let t: i64 = t64 as i64;
            let cs = unit_vec(t);
            let off_x = mul_div_clamp(radius, cs.0, SCALE);
            let off_y = mul_div_clamp(radius, cs.1, SCALE);
            let position = pos.add(Vector2::new(off_x, off_y));
            proof {
                assert(clampi(off_x as int) == off_x as int);
                assert(clampi(off_y as int) == off_y as int);
                assert(position@ == s_start_pos(pos@, radius as int, i as int, size as int));
            }
            cells.push(Cell::new(i as u64, position));
        }
        let spat = if spatiality > MAXV {
            MAXV
        } else {
            spatiality
        };
        let b = if bias > MAXV {
            MAXV
        } else if bias < -MAXV {
            -MAXV
        } else {
            bias
        };
        Ok(Organism { cells, spatiality: spat, bias: b, noise, next_id: size as u64 })
    }

    /// One physics step. For every cell the net repulsive force is summed
    /// over a snapshot of the positions taken before any cell moves, with
    /// the cutoff at `2 * spatiality` and a degenerate pair contributing
    /// nothing; then every velocity gains `force * bias / mass` and is
    /// damped; then, once every velocity is final, every cell integrates.
    /// Pairs are skipped by ring index, which matches skipping by id
    /// because ids are unique.
    pub fn expand(&mut self)
        requires
            old(self).wf(),
        ensures
            final(self).wf(),
            expand_post(old(self)@, old(self).spat_of(), old(self).bias_of(), final(self)@),
            final(self)@.len() == old(self)@.len(),
            final(self).spat_of() == old(self).spat_of(),
            final(self).bias_of() == old(self).bias_of(),
            final(self).noise_of() == old(self).noise_of(),
            final(self).next_id_of() == old(self).next_id_of(),
    {
        let n = self.cells.len();
        let ghost cells0 = self.cells@;
        let sp = self.spatiality;
        // first pass: net forces, over the position snapshot only
        let mut forces: Vec<Vector2> = Vec::new();
        for i in 0..n
            invariant
                *self == *old(self),
                self.cells@ == cells0,
                n == cells0.len(),
                sp == self.spatiality,
                old(self).wf(),
                forces@.len() == i,
                forall|k: int|
                    0 <= k < i ==> (#[trigger] forces@[k])@ == s_net_force(cells0, sp as int, k),
        {
            let mut force = Vector2::default();
            for j in 0..n
                invariant
                    *self == *old(self),
                    self.cells@ == cells0,
                    n == cells0.len(),
                    sp == self.spatiality,
                    old(self).wf(),
                    0 <= i < n,
                    force@ == s_net_force_upto(cells0, sp as int, i as int, j as int),
            {
                force.bounds();
                if j != i {
                    let d = self.cells[i].position.sub(self.cells[j].position);
                    let l = d.length_sqr();
                    if l != 0 && l <= 2 * sp {
                        let inv_l = mul_div_clamp(SCALE, SCALE, l);
                        force = force.add(d.mag(inv_l));
                    }
                }
                assert(force@ == s_net_force_upto(cells0, sp as int, i as int, j as int + 1));
            }
            forces.push(force);
        }
        // second pass: velocities
        let ghost bias0 = self.bias as int;
        for i in 0..n
            invariant
                n == cells0.len(),
                self.cells@.len() == n,
                sp == self.spatiality,
                bias0 == self.bias as int,
                self.spatiality == old(self).spatiality,
                self.bias == old(self).bias,
                self.noise == old(self).noise,
                self.next_id == old(self).next_id,
                old(self).wf(),
                old(self)@ == cells0,
                forces@.len() == n,
                forall|k: int|
                    0 <= k < n ==> (#[trigger] forces@[k])@ == s_net_force(cells0, sp as int, k),
                forall|k: int| i <= k < n ==> self.cells@[k] == cells0[k],
                forall|k: int|
                    0 <= k < i ==> {
                        let v2 = s_new_velocity(
                            cells0[k].velocity@,
                            s_net_force(cells0, sp as int, k),
                            bias0,
                            cells0[k].mass as int,
                        );
                        &&& (#[trigger] self.cells@[k]).id == cells0[k].id
                        &&& self.cells@[k].mass == cells0[k].mass
                        &&& self.cells@[k].position == cells0[k].position
                        &&& self.cells@[k].velocity@ == v2
                    },
        {
            assert(self.cells@[i as int] == cells0[i as int]);
            assert(cells0[i as int].mass == SCALE);
            let bm = mul_div_clamp(self.bias, SCALE, self.cells[i].mass);
            let accel = forces[i].scale(bm);
            let v2 = self.cells[i].velocity.add(accel).scale(DAMPING);
            let mut c = self.cells[i];
            c.velocity = v2;
            self.cells[i] = c;
        }
        // third pass: integration, after every velocity is final
        let ghost cells1 = self.cells@;
        for i in 0..n
            invariant
                n == cells0.len(),
                self.cells@.len() == n,
                cells1.len() == n,
                self.spatiality == old(self).spatiality,
                self.bias == old(self).bias,
                self.noise == old(self).noise,
                self.next_id == old(self).next_id,
                old(self).wf(),
                old(self)@ == cells0,
                sp == self.spatiality,
                bias0 == self.bias as int,
                forall|k: int|
                    0 <= k < n ==> {
                        let v2 = s_new_velocity(
                            cells0[k].velocity@,
                            s_net_force(cells0, sp as int, k),
                            bias0,
                            cells0[k].mass as int,
                        );
                        &&& (#[trigger] cells1[k]).id == cells0[k].id
                        &&& cells1[k].mass == cells0[k].mass
                        &&& cells1[k].position == cells0[k].position
                        &&& cells1[k].velocity@ == v2
                    },
                forall|k: int| i <= k < n ==> self.cells@[k] == cells1[k],
                forall|k: int|
                    0 <= k < i ==> {
                        &&& (#[trigger] self.cells@[k]).id == cells1[k].id
                        &&& self.cells@[k].mass == cells1[k].mass
                        &&& self.cells@[k].velocity == cells1[k].velocity
                        &&& self.cells@[k].position@ == s_add(
                            cells1[k].position@,
                            cells1[k].velocity@,
                        )
                    },
        {
            let mut c = self.cells[i];
            c.react();
            self.cells[i] = c;
        }
        assert(expand_post(cells0, sp as int, bias0, self.cells@));
        assert(self.wf());
    }

    /// One refinement pass with the interpolation parameters given
    /// explicitly: walks every consecutive ring pair, the wrap-around pair
    /// included, and inserts one cell on each oversized edge, at
    /// `a + ts[k] * (b - a)`, with a fresh id from the monotonic counter.
    /// Inserted cells shift later indices, so the walk carries a running
    /// offset and only ever compares original pairs: one insertion per
    /// oversized edge per pass.
    #[verifier::rlimit(60)]
    pub fn fill_gaps_with(&mut self, ts: &Vec<i64>)
        requires
            old(self).wf(),
            ts@.len() == old(self)@.len(),
        ensures
            final(self).wf(),
            final(self)@ == filled_from(
                old(self)@,
                ts@.map_values(|t: i64| t as int),
                old(self).spat_of(),
                0,
                old(self).next_id_of(),
            ),
            final(self)@.len() >= old(self)@.len(),
            final(self).spat_of() == old(self).spat_of(),
            final(self).bias_of() == old(self).bias_of(),
            final(self).noise_of() == old(self).noise_of(),
    {
        let ghost cells0 = self.cells@;
        let ghost tsi = ts@.map_values(|t: i64| t as int);
        let ghost spi = self.spatiality as int;
        let ghost nid0 = self.next_id;
        let n0 = self.cells.len();
        let mut off: usize = 0;
        let mut k: usize = 0;
        while k < n0
            invariant
                old(self).wf(),
                cells0 == old(self)@,
                tsi == ts@.map_values(|t: i64| t as int),
                spi == old(self).spat_of(),
                nid0 == old(self).next_id_of(),
                n0 == cells0.len(),
                1 <= n0,
                ts@.len() == n0,
                0 <= k <= n0,
                self.cells@.len() == n0 + off,
                self.next_id as int == n0 + off,
                self.spatiality == old(self).spatiality,
                self.bias == old(self).bias,
                self.noise == old(self).noise,
                self.cells@ == self.cells@.take((k + off) as int) + cells0.skip(k as int),
                self.cells@[0] == cells0[0],
                filled_from(cells0, tsi, spi, 0, nid0) == self.cells@.take((k + off) as int)
                    + filled_from(cells0, tsi, spi, k as int, self.next_id),
                forall|m: int|
                    0 <= m < self.cells@.len() ==> (#[trigger] self.cells@[m]).mass == SCALE
                        && self.cells@[m].id < self.next_id,
                forall|m1: int, m2: int|
                    #![trigger self.cells@[m1].id, self.cells@[m2].id]
                    0 <= m1 < self.cells@.len() && 0 <= m2 < self.cells@.len() && m1 != m2
                        ==> self.cells@[m1].id != self.cells@[m2].id,
            decreases n0 - k,
        {
            let cur_len = self.cells.len();
            let a_idx = k + off;
            let a = self.cells[a_idx];
            proof {
                assert(self.cells@[a_idx as int] == cells0.skip(k as int)[0]);
                assert(a == cells0[k as int]);
            }
            let b_idx = if k + 1 == n0 {
                0
            } else {
                a_idx + 1
            };
            let b = self.cells[b_idx];
            let ghost bspec = if k as int + 1 == n0 as int {
                cells0[0]
            } else {
                cells0[k as int + 1]
            };
            proof {
                if k + 1 < n0 {
                    assert(self.cells@[a_idx as int + 1] == cells0.skip(k as int)[1]);
                }
                assert(b == bspec);
            }
            let d = b.pos().sub(a.pos());
            let l = d.length_sqr();
            let ghost nid_k = self.next_id;
            let ghost done = self.cells@.take((k + off) as int);
            let ghost rest = filled_from(cells0, tsi, spi, k as int + 1, nid_k);
            if l > self.spatiality {
                assert(oversized(a, bspec, spi));
                let t = ts[k];
                let newpos = a.pos().add(d.scale(t));
                let newc = Cell::new(self.next_id, newpos);
                proof {
                    let lerp = s_add(
                        a.position@,
                        s_scale(s_sub(bspec.position@, a.position@), tsi[k as int]),
                    );
                    crate::vectors::lemma_v_make(lerp);
                    crate::vectors::lemma_v_make((0int, 0int));
                    let g = gap_cell(a, bspec, tsi[k as int], nid_k);
                    Vector2::lemma_eq_view(newc.position, g.position);
                    Vector2::lemma_eq_view(newc.velocity, g.velocity);
                    assert(newc == g);
                }
                self.cells.insert(a_idx + 1, newc);
                let ln = self.cells.len();
                proof {
                    assert(self.next_id as int + 1 == ln as int);
                }
                self.next_id = self.next_id + 1;
                off = off + 1;
                k = k + 1;
                proof {
                    let g = gap_cell(a, bspec, tsi[(k - 1) as int], nid_k);
                    let restg = filled_from(cells0, tsi, spi, k as int, (nid_k + 1) as u64);
                    assert(filled_from(cells0, tsi, spi, k as int - 1, nid_k) == seq![a, g]
                        + restg);
                    assert(self.cells@ =~= (done + seq![a, newc]) + cells0.skip(k as int));
                    assert(self.cells@.take((k + off) as int) =~= done + seq![a, newc]);
                    assert(self.cells@ =~= self.cells@.take((k + off) as int) + cells0.skip(
                        k as int,
                    ));
                    assert(done + (seq![a, g] + restg) =~= (done + seq![a, g]) + restg);
                    assert(filled_from(cells0, tsi, spi, 0, nid0) == self.cells@.take(
                        (k + off) as int,
                    ) + filled_from(cells0, tsi, spi, k as int, self.next_id));
                }
            } else {
                k = k + 1;
                proof {
                    assert(filled_from(cells0, tsi, spi, k as int - 1, nid_k) == seq![a]
                        + rest);
                    assert(self.cells@.take((k + off) as int) =~= done + seq![a]);
                    assert(self.cells@ =~= self.cells@.take((k + off) as int) + cells0.skip(
                        k as int,
                    ));
                    assert(done + (seq![a] + rest) =~= (done + seq![a]) + rest);
                    assert(filled_from(cells0, tsi, spi, 0, nid0) == self.cells@.take(
                        (k + off) as int,
                    ) + filled_from(cells0, tsi, spi, k as int, self.next_id));
                }
            }
        }
        proof {
            assert(filled_from(cells0, tsi, spi, n0 as int, self.next_id)
                == Seq::<Cell>::empty());
            assert(self.cells@.take((n0 + off) as int) =~= self.cells@);
            assert(self.cells@.take((n0 + off) as int) + Seq::<Cell>::empty() =~= self.cells@);
            assert(self.cells@ == filled_from(cells0, tsi, spi, 0, nid0));
            assert(self.wf());
        }
    }

    /// One refinement pass. The interpolation parameter of every insertion
    /// is exactly one half without noise; with noise it is a uniform draw
    /// clamped into `[0.3, 0.7]` of the edge (in fixed point,
    /// `[300_000, 700_000]`), away from the endpoints so no degenerate
    /// near-zero edge is created.
    pub fn fill_gaps(&mut self)
        requires
            old(self).wf(),
        ensures
            final(self).wf(),
            final(self)@.len() >= old(self)@.len(),
            final(self).spat_of() == old(self).spat_of(),
            final(self).bias_of() == old(self).bias_of(),
            final(self).noise_of() == old(self).noise_of(),
            exists|tsi: Seq<int>|
                {
                    &&& tsi.len() == old(self)@.len()
                    &&& (forall|k: int|
                        0 <= k < tsi.len() ==> (if old(self).noise_of() {
                            300_000 <= #[trigger] tsi[k] <= 700_000
                        } else {
                            tsi[k] == 500_000
                        }))
                    &&& final(self)@ == filled_from(
                        old(self)@,
                        tsi,
                        old(self).spat_of(),
                        0,
                        old(self).next_id_of(),
                    )
                },
    {
        let n = self.cells.len();
        let mut ts: Vec<i64> = Vec::new();
        for i in 0..n
            invariant
                *self == *old(self),
                n == self@.len(),
                ts@.len() == i,
                forall|k: int|
                    0 <= k < i ==> (if old(self).noise_of() {
                        300_000 <= #[trigger] ts@[k] <= 700_000
                    } else {
                        ts@[k] == 500_000
                    }),
        {
            let t: i64 = if self.noise {
                let u = crate::rng::random_unit();
                if u < 300_000 {
                    300_000
                } else if u > 700_000 {
                    700_000
                } else {
                    u
                }
            } else {
                500_000
            };
            ts.push(t);
        }
        self.fill_gaps_with(&ts);
        proof {
            let tsi = ts@.map_values(|t: i64| t as int);
            assert(tsi.len() == old(self)@.len());
            assert(forall|k: int|
                0 <= k < tsi.len() ==> (if old(self).noise_of() {
                    300_000 <= #[trigger] tsi[k] <= 700_000
                } else {
                    tsi[k] == 500_000
                }));
        }
    }

    /// One full simulation tick: refinement, then the physics step, in
    /// that fixed order. The ring never shrinks: its length is
    /// non-decreasing over any sequence of ticks.
    pub fn tick(&mut self)
        requires
            old(self).wf(),
        ensures
            final(self).wf(),
            final(self)@.len() >= old(self)@.len(),
            final(self).spat_of() == old(self).spat_of(),
            final(self).bias_of() == old(self).bias_of(),
            final(self).noise_of() == old(self).noise_of(),
            exists|mid: Seq<Cell>, tsi: Seq<int>|
                {
                    &&& tsi.len() == old(self)@.len()
                    &&& (forall|k: int|
                        0 <= k < tsi.len() ==> (if old(self).noise_of() {
                            300_000 <= #[trigger] tsi[k] <= 700_000
                        } else {
                            tsi[k] == 500_000
                        }))
                    &&& mid == filled_from(
                        old(self)@,
                        tsi,
                        old(self).spat_of(),
                        0,
                        old(self).next_id_of(),
                    )
                    &&& expand_post(mid, old(self).spat_of(), old(self).bias_of(), final(self)@)
                },
    {
        self.fill_gaps();
        let ghost mid = self@;
        self.expand();
        proof {
            let tsi = choose|tsi: Seq<int>|
                {
                    &&& tsi.len() == old(self)@.len()
                    &&& (forall|k: int|
                        0 <= k < tsi.len() ==> (if old(self).noise_of() {
                            300_000 <= #[trigger] tsi[k] <= 700_000
                        } else {
                            tsi[k] == 500_000
                        }))
                    &&& mid == filled_from(
                        old(self)@,
                        tsi,
                        old(self).spat_of(),
                        0,
                        old(self).next_id_of(),
                    )
                };
        }
    }
}

} // verus!
