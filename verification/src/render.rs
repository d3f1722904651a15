//! The frame compositor's queue: the computing half of the host's render
//! loop. During an update tick, draw requests are buffered here; when a
//! frame is rendered, the host drains the queue in order and issues one
//! draw call per request.

use vstd::prelude::*;

verus! {

/// One draw request: which texture to draw, and where.
#[derive(Clone, Copy, Debug, PartialEq, Eq, Structural)]
pub struct DrawCmd {
    /// Handle of the texture to draw, as handed out by the host's texture
    /// table.
    pub texture: u32,
    /// Horizontal position, in pixels.
    pub x: u32,
    /// Vertical position, in pixels.
    pub y: u32,
}

/// The buffered draw requests of the frame being built.
pub struct DrawQueue {
    items: Vec<DrawCmd>,
}

impl DrawQueue {
    /// The buffered requests, in submission order.
    pub closed spec fn spec_items(self) -> Seq<DrawCmd> {
        self.items@
    }

    /// An empty queue.
    pub fn new() -> (q: DrawQueue)
        ensures
            q.spec_items() == Seq::<DrawCmd>::empty(),
    {
        DrawQueue { items: Vec::new() }
    }

    /// Buffer one draw request.
    pub fn draw(&mut self, texture: u32, x: u32, y: u32)
        ensures
            final(self).spec_items() == old(self).spec_items().push(DrawCmd { texture, x, y }),
    {
        self.items.push(DrawCmd { texture, x, y });
    }

    /// Hand the buffered requests over for rendering, leaving the queue
    /// empty for the next tick.
    pub fn take_frame(&mut self) -> (frame: Vec<DrawCmd>)
        ensures
            frame@ == old(self).spec_items(),
            final(self).spec_items() == Seq::<DrawCmd>::empty(),
    {
        let mut out: Vec<DrawCmd> = Vec::new();
        core::mem::swap(&mut out, &mut self.items);
        out
    }

    /// How many requests are buffered.
    pub fn len(&self) -> (n: usize)
        ensures
            (n as int) == self.spec_items().len(),
    {
        self.items.len()
    }
}

} // verus!
