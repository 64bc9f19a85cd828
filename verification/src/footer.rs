//! The queue button of the footer.
use vstd::prelude::*;

verus! {

/// Sent when the queue is shown or hidden.
#[derive(Clone, Debug)]
pub struct ToggleQueueEvent {
    pub show: bool,
}

/// A click on the queue button: the queue flips between shown and hidden,
/// and the event tells which it is now.
pub fn toggle_queue(show_queue: &mut bool) -> (event: ToggleQueueEvent)
    ensures
        *final(show_queue) == !*old(show_queue),
        event.show == *final(show_queue),
{
    *show_queue = !*show_queue;
    ToggleQueueEvent { show: *show_queue }
}

} // verus!
