//! The workers: when one takes a task, waits or goes home.

use vstd::prelude::*;

verus! {

/// What a worker finds in the queue of tasks.
#[derive(Debug, Clone, Copy, PartialEq, Eq, Structural)]
pub enum Poll {
    /// A task.
    Task,
    /// Nothing, and nothing will come any more.
    Closed,
    /// Nothing for now.
    Empty,
}

/// What a worker does next.
#[derive(Debug, Clone, Copy, PartialEq, Eq, Structural)]
pub enum Move {
    /// Works on the task.
    Run,
    /// Lets others go first, and looks again.
    Yield,
    /// Goes home.
    Stop,
}

/// What a worker does next. `active` counts the tasks that are not done yet,
/// queued or being worked on; an empty queue is the end only once there are
/// none, since a task that is being worked on may bring new ones.
pub fn next_move(poll: Poll, active: usize) -> (m: Move)
    ensures
        m == match poll {
            Poll::Task => Move::Run,
            Poll::Closed => Move::Stop,
            Poll::Empty => if active == 0 {
                Move::Stop
            } else {
                Move::Yield
            },
        },
{
    match poll {
        Poll::Task => Move::Run,
        Poll::Closed => Move::Stop,
        Poll::Empty => if active == 0 {
            Move::Stop
        } else {
            Move::Yield
        },
    }
}

/// Where the tasks of a run are at some moment.
pub ghost struct Tally {
    /// In the queue.
    pub queued: int,
    /// With a worker.
    pub running: int,
    /// Counted already, but not yet put into the queue.
    pub announced: int,
    /// The shared counter.
    pub active: int,
}

/// What workers do to the tally.
pub ghost enum Event {
    /// A worker takes a task out of the queue.
    Take,
    /// A worker counts a new task.
    Announce,
    /// A worker puts a task that it counted into the queue.
    Send,
    /// A worker is done with its task, and takes it off the count.
    Finish,
}

/// The tally at the start: the root of the tree is queued and counted.
pub open spec fn at_start() -> Tally {
    Tally { queued: 1, running: 0, announced: 0, active: 1 }
}

impl Tally {
    /// The event can happen.
    pub open spec fn allows(self, e: Event) -> bool {
        match e {
            Event::Take => self.queued > 0,
            Event::Announce => self.running > 0,
            Event::Send => self.announced > 0,
            Event::Finish => self.running > 0,
        }
    }

    /// The tally after the event.
    pub open spec fn after(self, e: Event) -> Tally {
        match e {
            Event::Take => Tally { queued: self.queued - 1, running: self.running + 1, ..self },
            Event::Announce => Tally {
                announced: self.announced + 1,
                active: self.active + 1,
                ..self
            },
            Event::Send => Tally {
                announced: self.announced - 1,
                queued: self.queued + 1,
                ..self
            },
            Event::Finish => Tally { running: self.running - 1, active: self.active - 1, ..self },
        }
    }
}

/// The events can happen one after the other.
pub open spec fn can_happen(events: Seq<Event>) -> bool
    decreases events.len(),
{
    events.len() > 0 ==> can_happen(events.drop_last()) && tally_after(events.drop_last()).allows(
        events.last(),
    )
}

/// The tally after the events.
pub open spec fn tally_after(events: Seq<Event>) -> Tally
    decreases events.len(),
{
    if events.len() == 0 {
        at_start()
    } else {
        tally_after(events.drop_last()).after(events.last())
    }
}

/// The counter always tells how many tasks are not done, wherever they are.
pub proof fn counter_is_exact(events: Seq<Event>)
    requires
        can_happen(events),
    ensures
        ({
            let t = tally_after(events);
            &&& t.active == t.queued + t.running + t.announced
            &&& t.queued >= 0 && t.running >= 0 && t.announced >= 0
        }),
    decreases events.len(),
{
    if events.len() > 0 {
        counter_is_exact(events.drop_last());
    }
}

/// A worker that finds the queue empty and the counter at zero may go home:
/// no task is left anywhere, and none can come any more.
pub proof fn stopping_leaves_nothing_undone(events: Seq<Event>, e: Event)
    requires
        can_happen(events),
        tally_after(events).active == 0,
    ensures
        tally_after(events).queued == 0,
        tally_after(events).running == 0,
        !tally_after(events).allows(e),
{
    counter_is_exact(events);
}

} // verus!
