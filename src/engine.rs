//! The double-buffered tick protocol: which generation each frame reads and
//! writes, the parameters of each dispatch, and an engine that runs the
//! protocol on host memory.
use crate::kernel::{cell_count, step, step_spec, valid_constants};
use crate::tile::{Tile, TileConstants, TransferError};
use vstd::prelude::*;

verus! {

/// Side of the cubic workgroup that the device kernel declares.
pub const WORKGROUP_SIZE: u32 = 4;

/// One of the two grid buffers.
#[derive(Clone, Copy, Debug, PartialEq, Eq, Structural)]
pub enum Generation {
    Zero,
    One,
}

/// The generation that frame `frame` reads: generation zero on even frames.
pub open spec fn source_of(frame: nat) -> Generation {
    if frame % 2 == 0 {
        Generation::Zero
    } else {
        Generation::One
    }
}

/// The generation that frame `frame` writes.
pub open spec fn destination_of(frame: nat) -> Generation {
    if frame % 2 == 0 {
        Generation::One
    } else {
        Generation::Zero
    }
}

/// The generation that frame `frame` reads.
pub fn source_generation(frame: u64) -> (r: Generation)
    ensures
        r == source_of(frame as nat),
{
    if frame % 2 == 0 {
        Generation::Zero
    } else {
        Generation::One
    }
}

/// The generation that frame `frame` writes.
pub fn destination_generation(frame: u64) -> (r: Generation)
    ensures
        r == destination_of(frame as nat),
{
    if frame % 2 == 0 {
        Generation::One
    } else {
        Generation::Zero
    }
}

/// Why a grid cannot be built.
#[derive(Clone, Copy, Debug, PartialEq, Eq, Structural)]
pub struct PreconditionError {
    pub window_width: usize,
}

/// Widths of a cubic grid whose bytes are a multiple of eight and whose
/// cell indices fit in 32 bits.
pub open spec fn valid_width(window_width: int) -> bool {
    1 <= window_width && window_width * window_width * window_width <= u32::MAX && (window_width
        * 8) % 8 == 0
}

/// The parameter block of a cube of side `width` at frame `frame_number`.
pub open spec fn cube_constants(width: u32, frame_number: u32) -> TileConstants {
    TileConstants { width, height: width, depth: width, frame_number }
}

/// Checks that a grid of side `window_width` can be built.
pub fn check_window_width(window_width: usize) -> (r: Result<u32, PreconditionError>)
    ensures
        r.is_ok() <==> valid_width(window_width as int),
        r matches Ok(w) ==> w == window_width,
        r matches Err(e) ==> e.window_width == window_width,
{
    if window_width == 0 || window_width > 2048 {
        proof {
            if window_width > 2048 {
                let w = window_width as int;
                assert(w * w * w > u32::MAX) by (nonlinear_arith)
                    requires
                        w > 2048,
                ;
            }
        }
        return Err(PreconditionError { window_width });
    }
    let w = window_width as u64;
    proof {
        assert(w * w <= 2048 * 2048 && w * w * w <= 2048 * 2048 * 2048) by (nonlinear_arith)
            requires
                1 <= w <= 2048,
        ;
    }
    if w * w * w > u32::MAX as u64 {
        return Err(PreconditionError { window_width });
    }
    Ok(w as u32)
}

/// The side of the window that covers `chunk_radius` chunks of side
/// `chunk_width` on each side of a centre chunk, if it fits.
pub fn window_width(chunk_width: usize, chunk_radius: usize) -> (r: Option<usize>)
    ensures
        r matches Some(w) ==> w == chunk_width * (chunk_radius * 2 + 1),
        r.is_none() <==> chunk_width * (chunk_radius * 2 + 1) > usize::MAX,
{
    match chunk_radius.checked_mul(2) {
        None => {
            proof {
                if chunk_width > 0 {
                    assert(chunk_width * (chunk_radius * 2 + 1) >= chunk_radius * 2 + 1)
                        by (nonlinear_arith)
                        requires
                            chunk_width >= 1,
                    ;
                } else {
                    assert(chunk_radius * 2 > usize::MAX);
                }
            }
            if chunk_width == 0 {
                Some(0)
            } else {
                None
            }
        },
        Some(d) => match d.checked_add(1) {
            None => {
                proof {
                    if chunk_width > 0 {
                        assert(chunk_width * (chunk_radius * 2 + 1) >= chunk_radius * 2 + 1)
                            by (nonlinear_arith)
                            requires
                                chunk_width >= 1,
                        ;
                    }
                }
                if chunk_width == 0 {
                    Some(0)
                } else {
                    None
                }
            },
            Some(n) => chunk_width.checked_mul(n),
        },
    }
}

/// Number of workgroups along one axis: enough to cover `width` cells.
pub fn workgroup_count(width: u32) -> (r: u32)
    ensures
        r == (width + WORKGROUP_SIZE - 1) / (WORKGROUP_SIZE as int),
{
    width / WORKGROUP_SIZE + if width % WORKGROUP_SIZE == 0 {
        0
    } else {
        1
    }
}

/// What one dispatch does.
#[derive(Clone, Copy, Debug)]
pub struct TickPlan {
    pub frame_number: u32,
    pub source: Generation,
    pub destination: Generation,
    pub constants: TileConstants,
    pub workgroups: [u32; 3],
}

/// The dispatch of frame `frame` on a cube of side `window_width`; the frame
/// number handed to the device is the frame's low 32 bits.
pub fn plan_tick(window_width: u32, frame: u64) -> (r: TickPlan)
    ensures
        r.frame_number == frame as u32,
        r.source == source_of(frame as nat),
        r.destination == destination_of(frame as nat),
        r.constants == cube_constants(window_width, frame as u32),
        r.workgroups@ == seq![
            ((window_width + WORKGROUP_SIZE - 1) / (WORKGROUP_SIZE as int)) as u32,
            ((window_width + WORKGROUP_SIZE - 1) / (WORKGROUP_SIZE as int)) as u32,
            ((window_width + WORKGROUP_SIZE - 1) / (WORKGROUP_SIZE as int)) as u32,
        ],
{
    let frame_number = #[verifier::truncate] (frame as u32);
    let n = workgroup_count(window_width);
    let r = TickPlan {
        frame_number,
        source: source_generation(frame),
        destination: destination_generation(frame),
        constants: TileConstants {
            width: window_width,
            height: window_width,
            depth: window_width,
            frame_number,
        },
        workgroups: [n, n, n],
    };
    assert(r.workgroups@ =~= seq![n, n, n]);
    r
}

/// A bound on the frames that have been submitted and not yet completed.
pub struct InFlightLimit {
    in_flight: u32,
    limit: u32,
}

impl InFlightLimit {
    /// A bound of `limit` frames, none in flight.
    pub fn new(limit: u32) -> (r: InFlightLimit)
        ensures
            r.in_flight_spec() == 0,
            r.limit_spec() == limit,
    {
        InFlightLimit { in_flight: 0, limit }
    }

    pub closed spec fn in_flight_spec(&self) -> nat {
        self.in_flight as nat
    }

    pub closed spec fn limit_spec(&self) -> nat {
        self.limit as nat
    }

    /// Frames in flight.
    pub fn in_flight(&self) -> (r: u32)
        ensures
            r == self.in_flight_spec(),
    {
        self.in_flight
    }

    /// Admits one more frame if the bound allows it.
    pub fn try_acquire(&mut self) -> (r: bool)
        ensures
            r == (old(self).in_flight_spec() < old(self).limit_spec()),
            final(self).limit_spec() == old(self).limit_spec(),
            final(self).in_flight_spec() == if r {
                old(self).in_flight_spec() + 1
            } else {
                old(self).in_flight_spec()
            },
    {
        if self.in_flight < self.limit {
            self.in_flight = self.in_flight + 1;
            true
        } else {
            false
        }
    }

    /// Records that one admitted frame has completed.
    pub fn release(&mut self)
        requires
            old(self).in_flight_spec() > 0,
        ensures
            final(self).in_flight_spec() == old(self).in_flight_spec() - 1,
            final(self).limit_spec() == old(self).limit_spec(),
    {
        self.in_flight = self.in_flight - 1;
    }
}

/// The state of a [`TickEngine`]: the grid side, both generations and the
/// number of frames dispatched so far.
pub struct EngineView {
    pub width: u32,
    pub generation_0: Seq<Tile>,
    pub generation_1: Seq<Tile>,
    pub frame_counter: nat,
}

/// The contents of generation `g`.
pub open spec fn generation(v: EngineView, g: Generation) -> Seq<Tile> {
    match g {
        Generation::Zero => v.generation_0,
        Generation::One => v.generation_1,
    }
}

/// The engine with generation `g` replaced by `cells`.
pub open spec fn with_generation(v: EngineView, g: Generation, cells: Seq<Tile>) -> EngineView {
    match g {
        Generation::Zero => EngineView { generation_0: cells, ..v },
        Generation::One => EngineView { generation_1: cells, ..v },
    }
}

/// The generation that the next frame reads, which is the one the last frame
/// wrote: uploads go there and downloads come from there.
pub open spec fn current(v: EngineView) -> Seq<Tile> {
    generation(v, source_of(v.frame_counter))
}

/// The engine after an upload of `cells`.
pub open spec fn upload_spec(v: EngineView, cells: Seq<Tile>) -> EngineView {
    with_generation(v, source_of(v.frame_counter), cells)
}

/// The engine after one frame.
pub open spec fn tick_spec(v: EngineView) -> EngineView {
    let c = cube_constants(v.width, v.frame_counter as u32);
    let next = with_generation(v, destination_of(v.frame_counter), step_spec(c, current(v)));
    EngineView { frame_counter: v.frame_counter + 1, ..next }
}

/// The engine after `n` frames.
pub open spec fn ticks_spec(v: EngineView, n: nat) -> EngineView
    decreases n,
{
    if n == 0 {
        v
    } else {
        tick_spec(ticks_spec(v, (n - 1) as nat))
    }
}

/// Both generations hold a full grid of a valid side.
pub open spec fn engine_wf(v: EngineView) -> bool {
    &&& valid_width(v.width as int)
    &&& v.generation_0.len() == cell_count(cube_constants(v.width, 0))
    &&& v.generation_1.len() == cell_count(cube_constants(v.width, 0))
}

/// A well-formed engine of side `width` at frame zero, every cell of both
/// generations at its default.
pub open spec fn fresh_engine(v: EngineView, width: int) -> bool {
    &&& engine_wf(v)
    &&& v.width == width
    &&& v.frame_counter == 0
    &&& v.generation_0 == Seq::new(
        cell_count(cube_constants(v.width, 0)) as nat,
        |i: int| crate::tile::default_tile(),
    )
    &&& v.generation_1 == v.generation_0
}

/// The tick engine on host memory: two generations of cells that swap roles
/// every frame, and a frame counter.
pub struct TickEngine {
    width: u32,
    generation_0: Vec<Tile>,
    generation_1: Vec<Tile>,
    frame_counter: u64,
}

impl View for TickEngine {
    type V = EngineView;

    closed spec fn view(&self) -> EngineView {
        EngineView {
            width: self.width,
            generation_0: self.generation_0@,
            generation_1: self.generation_1@,
            frame_counter: self.frame_counter as nat,
        }
    }
}

fn default_cells(n: usize) -> (r: Vec<Tile>)
    ensures
        r@ == Seq::new(n as nat, |i: int| crate::tile::default_tile()),
{
    let mut out: Vec<Tile> = Vec::with_capacity(n);
    let mut i: usize = 0;
    while i < n
        invariant
            i <= n,
            out@ =~= Seq::new(i as nat, |k: int| crate::tile::default_tile()),
        decreases n - i,
    {
        out.push(Tile::default());
        i = i + 1;
    }
    out
}

proof fn lemma_square_below_cube(w: int)
    requires
        1 <= w,
    ensures
        w * w <= w * w * w,
{
    assert(w * w <= w * w * w) by (nonlinear_arith)
        requires
            1 <= w,
    ;
}

fn copy_cells(cells: &[Tile]) -> (r: Vec<Tile>)
    ensures
        r@ == cells@,
{
    let mut out: Vec<Tile> = Vec::with_capacity(cells.len());
    let mut i: usize = 0;
    while i < cells.len()
        invariant
            i <= cells@.len(),
            out@ =~= cells@.subrange(0, i as int),
        decreases cells@.len() - i,
    {
        out.push(cells[i]);
        i = i + 1;
    }
    assert(out@ =~= cells@);
    out
}

impl TickEngine {
    /// An engine for a cube of side `window_width`, every cell at its
    /// default, at frame zero.
    pub fn new(window_width: usize) -> (r: Result<TickEngine, PreconditionError>)
        ensures
            r.is_ok() <==> valid_width(window_width as int),
            r matches Ok(e) ==> fresh_engine(e@, window_width as int),
            r matches Err(e) ==> e.window_width == window_width,
    {
        let w = match check_window_width(window_width) {
            Ok(w) => w,
            Err(e) => return Err(e),
        };
        proof {
            lemma_square_below_cube(w as int);
        }
        let n = (w * w * w) as usize;
        Ok(TickEngine {
            width: w,
            generation_0: default_cells(n),
            generation_1: default_cells(n),
            frame_counter: 0,
        })
    }

    /// Number of frames dispatched so far.
    pub fn frame_counter(&self) -> (r: u64)
        ensures
            r == self@.frame_counter,
    {
        self.frame_counter
    }

    /// Side of the grid.
    pub fn window_width(&self) -> (r: u32)
        ensures
            r == self@.width,
    {
        self.width
    }

    /// Number of cells in the grid.
    pub fn window_len(&self) -> (r: usize)
        requires
            engine_wf(self@),
        ensures
            r == cell_count(cube_constants(self@.width, 0)),
    {
        proof {
            lemma_square_below_cube(self.width as int);
        }
        (self.width * self.width * self.width) as usize
    }

    /// Writes `window` into the current generation.
    pub fn upload(&mut self, window: &[Tile]) -> (r: Result<(), TransferError>)
        requires
            engine_wf(old(self)@),
        ensures
            engine_wf(final(self)@),
            r.is_ok() <==> window@.len() == cell_count(cube_constants(old(self)@.width, 0)),
            r.is_ok() ==> final(self)@ == upload_spec(old(self)@, window@),
            r.is_err() ==> final(self)@ == old(self)@,
            r matches Err(e) ==> e == (TransferError::LengthMismatch {
                expected: cell_count(cube_constants(old(self)@.width, 0)) as usize,
                found: window@.len() as usize,
            }),
    {
        let n = self.window_len();
        if window.len() != n {
            return Err(TransferError::LengthMismatch { expected: n, found: window.len() });
        }
        let cells = copy_cells(window);
        if self.frame_counter % 2 == 0 {
            self.generation_0 = cells;
        } else {
            self.generation_1 = cells;
        }
        Ok(())
    }

    /// Dispatches one frame: the current generation is read, the other is
    /// written, and the counter moves on by one.
    pub fn tick(&mut self) -> (r: TickPlan)
        requires
            engine_wf(old(self)@),
            old(self)@.frame_counter < u64::MAX,
        ensures
            engine_wf(final(self)@),
            final(self)@ == tick_spec(old(self)@),
            r.frame_number == old(self)@.frame_counter as u32,
            r.source == source_of(old(self)@.frame_counter),
            r.destination == destination_of(old(self)@.frame_counter),
            r.constants == cube_constants(old(self)@.width, old(self)@.frame_counter as u32),
    {
        let plan = plan_tick(self.width, self.frame_counter);
        let c = plan.constants;
        proof {
            assert(cell_count(c) == cell_count(cube_constants(self.width, 0)));
        }
        if self.frame_counter % 2 == 0 {
            self.generation_1 = step(&c, self.generation_0.as_slice());
        } else {
            self.generation_0 = step(&c, self.generation_1.as_slice());
        }
        self.frame_counter = self.frame_counter + 1;
        proof {
            assert(self@.frame_counter % 2 != old(self)@.frame_counter % 2);
        }
        plan
    }

    /// A copy of the current generation: the result of the latest frame, or
    /// what was uploaded since.
    pub fn download(&self) -> (r: Vec<Tile>)
        ensures
            r@ == current(self@),
    {
        if self.frame_counter % 2 == 0 {
            self.generation_0.clone()
        } else {
            self.generation_1.clone()
        }
    }
}

/// Generation zero is read on even frames and written on odd ones; each
/// frame reads what the frame before it wrote.
pub proof fn lemma_generations_alternate(k: nat)
    ensures
        source_of(k) == Generation::Zero <==> k % 2 == 0,
        destination_of(k) != source_of(k),
        source_of(k + 1) == destination_of(k),
{
}

/// `n` frames move the counter on by exactly `n`, and keep the grid's side.
pub proof fn lemma_ticks_advance(v: EngineView, n: nat)
    ensures
        ticks_spec(v, n).frame_counter == v.frame_counter + n,
        ticks_spec(v, n).width == v.width,
    decreases n,
{
    if n > 0 {
        lemma_ticks_advance(v, (n - 1) as nat);
    }
}

/// A grid uploaded and then ticked once comes back unchanged when the frame
/// changes nothing: in a grid of side at most two, or without gravity.
pub proof fn lemma_upload_tick_round_trip(v: EngineView, cells: Seq<Tile>)
    requires
        engine_wf(v),
        cells.len() == cell_count(cube_constants(v.width, 0)),
        v.width <= 2 || crate::kernel::zero_gravity(cells),
    ensures
        current(tick_spec(upload_spec(v, cells))) == cells,
{
    let u = upload_spec(v, cells);
    assert(current(u) == cells);
    let c = cube_constants(v.width, v.frame_counter as u32);
    crate::kernel::lemma_step_identity(c, cells);
}

} // verus!
