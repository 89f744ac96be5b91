//! Dispatch bookkeeping of the GPU pipeline.
//!
//! The GPU keeps the control points in two buffers, A and B. A relaxation
//! pass reads one and writes the other ("ping-pong"); afterwards the written
//! buffer is the current one. This module decides, from the counts the
//! pipeline was last given, what each pass dispatches and which buffer it
//! reads; the GPU calls themselves are made by the caller.
use vstd::prelude::*;

verus! {

/// Threads per workgroup of the relaxation pass.
pub const STEP_WORKGROUP: u32 = 64;

/// Side of the square workgroup of the gravity pass.
pub const GRAVITY_TILE: u32 = 16;

/// Canvas size used when there is no surface to draw on.
pub const HEADLESS_CANVAS: (u32, u32) = (800, 600);

/// What the pipeline knows of its inputs.
#[derive(Clone, Copy, Debug, PartialEq, Eq, Structural)]
pub struct GpuSchedule {
    /// Whether buffer A holds the current control points.
    pub is_a_source: bool,
    pub num_control_points: u32,
    pub num_indices: u32,
    pub num_nodes: u32,
    pub grid_width: u32,
    pub grid_height: u32,
}

/// The number of workgroups of `size` threads that cover `n` items.
pub open spec fn workgroups_for(n: int, size: int) -> int {
    (n + size - 1) / size
}

/// The schedule after one relaxation pass: nothing happens without control
/// points; otherwise the buffer written becomes the current one.
pub open spec fn after_step(s: GpuSchedule) -> GpuSchedule {
    if s.num_control_points == 0 {
        s
    } else {
        GpuSchedule { is_a_source: !s.is_a_source, ..s }
    }
}

impl GpuSchedule {
    /// A pipeline for a `grid_width` by `grid_height` force grid that holds no
    /// control points, indices or nodes yet, reading from buffer A.
    pub fn new(grid_width: u32, grid_height: u32) -> (s: Self)
        ensures
            s == (GpuSchedule {
                is_a_source: true,
                num_control_points: 0,
                num_indices: 0,
                num_nodes: 0,
                grid_width,
                grid_height,
            }),
    {
        GpuSchedule {
            is_a_source: true,
            num_control_points: 0,
            num_indices: 0,
            num_nodes: 0,
            grid_width,
            grid_height,
        }
    }

    /// Records new control points (`positions_len` coordinates, two per
    /// point) and a new line list of `indices_len` entries, both counted in
    /// 32 bits; the fresh positions go to buffer A, which becomes current.
    /// Returns the size in bytes of the coordinate buffers.
    pub fn buffers_updated(&mut self, positions_len: usize, indices_len: usize) -> (bytes: u64)
        requires
            positions_len * 4 <= usize::MAX,
        ensures
            *final(self) == (GpuSchedule {
                is_a_source: true,
                num_control_points: (positions_len / 2) as u32,
                num_indices: indices_len as u32,
                ..*old(self)
            }),
            bytes == positions_len * 4,
    {
        self.num_control_points = (positions_len / 2) as u32;
        self.num_indices = indices_len as u32;
        self.is_a_source = true;
        (positions_len * 4) as u64
    }

    /// Records that `node_count` nodes were uploaded, counted in 32 bits.
    pub fn nodes_updated(&mut self, node_count: usize)
        ensures
            *final(self) == (GpuSchedule { num_nodes: node_count as u32, ..*old(self) }),
    {
        self.num_nodes = node_count as u32;
    }

    /// The workgroups of the gravity pass, which tiles the force grid in
    /// squares of [`GRAVITY_TILE`] cells; `None` when there are no nodes to
    /// attract anything.
    pub fn gravity_dispatch(&self) -> (groups: Option<(u32, u32)>)
        requires
            self.grid_width + GRAVITY_TILE - 1 <= u32::MAX,
            self.grid_height + GRAVITY_TILE - 1 <= u32::MAX,
        ensures
            groups is None <==> self.num_nodes == 0,
            groups matches Some(g) ==> g.0 == workgroups_for(self.grid_width as int, GRAVITY_TILE as int)
                && g.1 == workgroups_for(self.grid_height as int, GRAVITY_TILE as int),
    {
        if self.num_nodes == 0 {
            return None;
        }
        Some(
            (
                (self.grid_width + (GRAVITY_TILE - 1)) / GRAVITY_TILE,
                (self.grid_height + (GRAVITY_TILE - 1)) / GRAVITY_TILE,
            ),
        )
    }

    /// Plans one relaxation pass: `None` (and nothing changes) when there are
    /// no control points; otherwise whether the pass reads buffer A, and how
    /// many workgroups of [`STEP_WORKGROUP`] threads cover the points. The
    /// buffer the pass writes becomes the current one.
    pub fn step_dispatch(&mut self) -> (pass: Option<(bool, u32)>)
        requires
            old(self).num_control_points + STEP_WORKGROUP - 1 <= u32::MAX,
        ensures
            *final(self) == after_step(*old(self)),
            pass is None <==> old(self).num_control_points == 0,
            pass matches Some(p) ==> p.0 == old(self).is_a_source && p.1 == workgroups_for(
                old(self).num_control_points as int,
                STEP_WORKGROUP as int,
            ),
    {
        if self.num_control_points == 0 {
            return None;
        }
        let reads_a = self.is_a_source;
        let groups = (self.num_control_points + (STEP_WORKGROUP - 1)) / STEP_WORKGROUP;
        self.is_a_source = !self.is_a_source;
        Some((reads_a, groups))
    }

    /// What a frame draws besides the heat map: the number of line-list
    /// vertices of the edges, if there are any, and the number of node
    /// instances, if there are any.
    pub fn render_plan(&self) -> (plan: (Option<u32>, Option<u32>))
        ensures
            plan.0 == (if self.num_indices > 0 { Some(self.num_indices) } else { None }),
            plan.1 == (if self.num_nodes > 0 { Some(self.num_nodes) } else { None }),
    {
        let edges = if self.num_indices > 0 {
            Some(self.num_indices)
        } else {
            None
        };
        let nodes = if self.num_nodes > 0 {
            Some(self.num_nodes)
        } else {
            None
        };
        (edges, nodes)
    }

    /// Plans reading the control points back: `None` when there are none
    /// (the result is empty); otherwise whether they are read from buffer A,
    /// and how many bytes (two 4-byte coordinates per point).
    pub fn readback(&self) -> (plan: Option<(bool, u64)>)
        requires
            self.num_control_points * 8 <= u32::MAX,
        ensures
            plan is None <==> self.num_control_points == 0,
            plan matches Some(p) ==> p.0 == self.is_a_source && p.1 == self.num_control_points * 8,
    {
        if self.num_control_points == 0 {
            return None;
        }
        Some((self.is_a_source, (self.num_control_points * 2 * 4) as u64))
    }

    /// The row pitch in bytes and the number of rows of a grid texture whose
    /// texels are `bytes_per_texel` bytes.
    pub fn texture_rows(&self, bytes_per_texel: u32) -> (rows: (u32, u32))
        requires
            self.grid_width * bytes_per_texel <= u32::MAX,
        ensures
            rows.0 == self.grid_width * bytes_per_texel,
            rows.1 == self.grid_height,
    {
        (self.grid_width * bytes_per_texel, self.grid_height)
    }
}

/// The size of the canvas: that of the surface configuration if there is
/// one, [`HEADLESS_CANVAS`] otherwise.
pub fn canvas_size(config: Option<(u32, u32)>) -> (size: (u32, u32))
    ensures
        size == (match config {
            Some(c) => c,
            None => HEADLESS_CANVAS,
        }),
{
    match config {
        Some(c) => c,
        None => HEADLESS_CANVAS,
    }
}

/// The surface configuration after a resize to `width` by `height`: a
/// configured surface takes the new size unless one side is zero; without a
/// surface there is nothing to resize.
pub fn resized(config: Option<(u32, u32)>, width: u32, height: u32) -> (new: Option<(u32, u32)>)
    ensures
        new == (match config {
            Some(c) => if width > 0 && height > 0 {
                Some((width, height))
            } else {
                Some(c)
            },
            None => None,
        }),
{
    match config {
        Some(c) => if width > 0 && height > 0 {
            Some((width, height))
        } else {
            Some(c)
        },
        None => None,
    }
}

/// Two relaxation passes bring the current buffer back: the ping-pong
/// alternates between A and B.
pub proof fn lemma_two_steps_restore_source(s: GpuSchedule)
    ensures
        after_step(after_step(s)) == s,
        s.num_control_points > 0 ==> after_step(s).is_a_source != s.is_a_source,
        s.num_control_points == 0 ==> after_step(s) == s,
        after_step(s).num_control_points == s.num_control_points,
        after_step(s).num_indices == s.num_indices,
        after_step(s).num_nodes == s.num_nodes,
        after_step(s).grid_width == s.grid_width,
        after_step(s).grid_height == s.grid_height,
{
}

/// A pass reads the current buffer and the buffer it writes is the one read
/// back afterwards.
pub proof fn lemma_readback_sees_last_pass(s: GpuSchedule)
    requires
        s.num_control_points > 0,
    ensures
        after_step(s).is_a_source == !s.is_a_source,
        after_step(s).num_control_points == s.num_control_points,
{
}

/// Enough workgroups to cover every item, and not one more than needed.
pub proof fn lemma_workgroups_cover(n: int, size: int)
    requires
        0 <= n,
        0 < size,
    ensures
        workgroups_for(n, size) * size >= n,
        workgroups_for(n, size) * size < n + size,
{
    let g = workgroups_for(n, size);
    vstd::arithmetic::div_mod::lemma_fundamental_div_mod(n + size - 1, size);
    let r = (n + size - 1) % size;
    assert(0 <= r < size);
    assert(g * size == size * g) by (nonlinear_arith);
}

} // verus!
