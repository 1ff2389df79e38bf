use vstd::prelude::*;

verus! {

/// What happened to a painter since its last decision.
#[derive(Clone, Copy, PartialEq, Eq, Structural, Debug)]
pub enum PainterEvent {
    /// A connection attempt succeeded.
    Connected,
    /// A connection attempt failed.
    ConnectFailed,
    /// The current chunk went out over the socket.
    Sent,
    /// Sending failed; the connection is gone.
    SendFailed,
    /// The input queue held a new command with this many chunks.
    NewCommand { chunks: usize },
    /// The input queue is empty for now.
    QueueEmpty,
    /// Every sender of the input queue is gone.
    QueueClosed,
}

/// What the painter should do next.
#[derive(Clone, Copy, PartialEq, Eq, Structural, Debug)]
pub enum PainterAction {
    /// Send the chunk with this index of the current command.
    Send { chunk: usize },
    /// Keep draining the input queue.
    Poll,
    /// Wait, then attempt a new connection.
    Reconnect,
    /// Shut down cleanly.
    Exit,
}

/// Whether the painter currently holds a connection.
#[derive(Clone, Copy, PartialEq, Eq, Structural, Debug)]
pub enum PainterMode {
    Connecting,
    Drawing,
}

/// One painter's decision state: its identity, how many chunks of the
/// current command it cycles over, and which chunk comes next.
#[derive(Clone, Copy, PartialEq, Eq, Structural, Debug)]
pub struct PainterState {
    pub mode: PainterMode,
    pub painter_id: usize,
    pub max_frame: usize,
    /// How many chunks of the current command are in use:
    /// the painter count capped by the command's chunk count.
    pub max_idx: usize,
    /// The chunk to send next.
    pub frame: usize,
}

impl PainterState {
    /// The state makes sense: at least one chunk in use, and the cursor
    /// inside it.
    pub open spec fn wf(self) -> bool {
        &&& self.max_frame >= 1
        &&& 1 <= self.max_idx <= self.max_frame
        &&& self.frame < self.max_idx
    }

    /// A painter that has just been handed its first command and holds no
    /// connection yet.
    pub fn new(painter_id: usize, max_frame: usize, chunks: usize) -> (s: PainterState)
        requires
            max_frame >= 1,
            chunks >= 1,
        ensures
            s.wf(),
            s.mode is Connecting,
            s.painter_id == painter_id,
            s.max_frame == max_frame,
            s.max_idx == vstd::math::min(max_frame as int, chunks as int),
            s.frame == painter_id as int % s.max_idx as int,
    {
        let max_idx = if max_frame < chunks {
            max_frame
        } else {
            chunks
        };
        PainterState {
            mode: PainterMode::Connecting,
            painter_id,
            max_frame,
            max_idx,
            frame: painter_id % max_idx,
        }
    }
}

/// The painter's decision table: what one event does to the state, and the
/// action it calls for. Connecting restarts the chunk cycle at
/// `painter_id mod max_idx`; each successful send advances it by one, round
/// robin; a new command recomputes the cycle; errors lead back to
/// reconnecting; a closed queue is the only clean exit.
pub open spec fn painter_step(s: PainterState, ev: PainterEvent) -> (PainterState, PainterAction) {
    match ev {
        PainterEvent::QueueClosed => (s, PainterAction::Exit),
        PainterEvent::Connected => {
            let f = (s.painter_id % s.max_idx) as usize;
            (
                PainterState { mode: PainterMode::Drawing, frame: f, ..s },
                PainterAction::Send { chunk: f },
            )
        },
        PainterEvent::ConnectFailed => (s, PainterAction::Reconnect),
        PainterEvent::Sent => (
            PainterState { frame: ((s.frame + 1) % (s.max_idx as int)) as usize, ..s },
            PainterAction::Poll,
        ),
        PainterEvent::SendFailed => (
            PainterState { mode: PainterMode::Connecting, ..s },
            PainterAction::Reconnect,
        ),
        PainterEvent::NewCommand { chunks } => {
            let idx = vstd::math::min(s.max_frame as int, chunks as int) as usize;
            (
                PainterState { max_idx: idx, frame: (s.painter_id % idx) as usize, ..s },
                PainterAction::Poll,
            )
        },
        PainterEvent::QueueEmpty => (s, PainterAction::Send { chunk: s.frame }),
    }
}

impl PainterState {
    /// Decide one event.
    pub fn step(&mut self, ev: PainterEvent) -> (a: PainterAction)
        requires
            old(self).wf(),
            ev matches PainterEvent::NewCommand { chunks } ==> chunks >= 1,
        ensures
            (*final(self), a) == painter_step(*old(self), ev),
            final(self).wf(),
    {
        match ev {
            PainterEvent::QueueClosed => PainterAction::Exit,
            PainterEvent::Connected => {
                let f = self.painter_id % self.max_idx;
                self.mode = PainterMode::Drawing;
                self.frame = f;
                PainterAction::Send { chunk: f }
            },
            PainterEvent::ConnectFailed => PainterAction::Reconnect,
            PainterEvent::Sent => {
                self.frame = (self.frame + 1) % self.max_idx;
                PainterAction::Poll
            },
            PainterEvent::SendFailed => {
                self.mode = PainterMode::Connecting;
                PainterAction::Reconnect
            },
            PainterEvent::NewCommand { chunks } => {
                let idx = if self.max_frame < chunks {
                    self.max_frame
                } else {
                    chunks
                };
                self.max_idx = idx;
                self.frame = self.painter_id % idx;
                PainterAction::Poll
            },
            PainterEvent::QueueEmpty => PainterAction::Send { chunk: self.frame },
        }
    }
}

/// Painter reconnect: a failed connection attempt changes nothing and asks
/// only for a retry; the following successful attempt makes the painter send
/// its assigned first chunk — `painter_id mod max_idx` — exactly once.
pub proof fn lemma_painter_reconnect(s: PainterState)
    requires
        s.wf(),
        s.mode is Connecting,
    ensures
        ({
            let (s1, a1) = painter_step(s, PainterEvent::ConnectFailed);
            let (s2, a2) = painter_step(s1, PainterEvent::Connected);
            &&& a1 == PainterAction::Reconnect
            &&& s1 == s
            &&& a2 == (PainterAction::Send { chunk: (s.painter_id % s.max_idx) as usize })
            &&& s2.mode is Drawing
        }),
{
}

} // verus!
