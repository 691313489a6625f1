//! Encoded video samples held in a linked stack.

use vstd::prelude::*;
use crate::stack::Stack;

verus! {

/// One encoded sample, as stored in the container.
pub struct EncodedFrame {
    pub data: Vec<u8>,
}

/// A stack of encoded samples: `pop` hands back the most recently pushed one.
pub struct FrameList {
    frames: Stack<EncodedFrame>,
}

impl View for FrameList {
    type V = Seq<EncodedFrame>;

    /// The frames from the first pushed to the last pushed.
    closed spec fn view(&self) -> Seq<EncodedFrame> {
        self.frames@
    }
}

/// The bytes of each frame of `frames`, in the same order.
pub open spec fn frame_bytes(frames: Seq<EncodedFrame>) -> Seq<Seq<u8>> {
    frames.map_values(|f: EncodedFrame| f.data@)
}

impl FrameList {
    /// An empty list.
    pub fn new() -> (list: Self)
        ensures
            list@ == Seq::<EncodedFrame>::empty(),
    {
        FrameList { frames: Stack::new() }
    }

    /// Puts `frame` on top.
    pub fn push(&mut self, frame: EncodedFrame)
        requires
            old(self)@.len() < usize::MAX,
        ensures
            final(self)@ == old(self)@.push(frame),
    {
        self.frames.push(frame);
    }

    /// The number of frames held.
    pub fn len(&self) -> (n: usize)
        ensures
            n == self@.len(),
    {
        self.frames.len()
    }

    /// Takes the most recently pushed frame, or gives `None` when the list is empty.
    pub fn pop(&mut self) -> (frame: Option<EncodedFrame>)
        ensures
            old(self)@.len() == 0 ==> frame is None && final(self)@ == old(self)@,
            old(self)@.len() > 0 ==> frame == Some(old(self)@.last()) && final(self)@ == old(self)@.drop_last(),
    {
        self.frames.pop()
    }
}

/// Popping right after a push gives back the pushed frame and leaves the list, and
/// its length, as they were: `push` makes the view `frames.push(frame)`, and `pop`
/// returns the last frame of the view and leaves `drop_last()`.
pub proof fn lemma_frame_list_pop_undoes_push(frames: Seq<EncodedFrame>, frame: EncodedFrame)
    ensures
        frames.push(frame).len() == frames.len() + 1,
        frames.push(frame).len() > 0,
        frames.push(frame).last() == frame,
        frames.push(frame).drop_last() == frames,
        frames.push(frame).drop_last().len() == frames.len(),
{
    assert(frames.push(frame).drop_last() =~= frames);
}

} // verus!
