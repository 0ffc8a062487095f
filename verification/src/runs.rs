//! Whole runs: what a pool of workers does with a tree of tasks, whoever takes
//! which task, and when.

use crate::ignore_files::Layer;
use crate::paths;
use crate::paths::DirEntry;
use vstd::multiset::Multiset;
use vstd::prelude::*;

verus! {

/// The sum of a number over a list.
pub open spec fn amount<T>(s: Seq<T>, f: spec_fn(T) -> int) -> int
    decreases s.len(),
{
    if s.len() == 0 {
        0
    } else {
        amount(s.drop_last(), f) + f(s.last())
    }
}

/// A run from the tasks in `pending` to the end: one of them is taken at a
/// time, and its children become pending, until none is left.
pub open spec fn is_run<T>(
    children: spec_fn(T) -> Seq<T>,
    pending: Multiset<T>,
    takes: Seq<T>,
) -> bool
    decreases takes.len(),
{
    if takes.len() == 0 {
        pending == Multiset::<T>::empty()
    } else {
        &&& pending.contains(takes[0])
        &&& is_run(
            children,
            pending.remove(takes[0]).add(children(takes[0]).to_multiset()),
            takes.drop_first(),
        )
    }
}

/// A worker: idle, or at a task, with the tasks that came out of it and are
/// still to be sent.
pub type Desk<T> = Option<(T, Seq<T>)>;

/// The queue of tasks and the workers at some moment.
pub ghost struct Crew<T> {
    pub queue: Multiset<T>,
    pub desks: Seq<Desk<T>>,
}

/// What a worker does.
pub ghost enum Act<T> {
    /// It takes a task out of the queue.
    Take(T),
    /// It sends the next of the tasks that came out of its own.
    Send,
    /// It is done with its task.
    Finish,
}

/// What happens at some moment: one of the workers does something.
pub ghost struct Turn<T> {
    pub worker: int,
    pub act: Act<T>,
}

/// The start: the root is queued, and every worker is idle.
pub open spec fn at_start<T>(root: T, workers: nat) -> Crew<T> {
    Crew { queue: seq![root].to_multiset(), desks: Seq::new(workers, |w: int| None) }
}

impl<T> Crew<T> {
    /// The turn can happen.
    pub open spec fn allows(self, turn: Turn<T>) -> bool {
        &&& 0 <= turn.worker < self.desks.len()
        &&& match turn.act {
            Act::Take(t) => self.desks[turn.worker] is None && self.queue.contains(t),
            Act::Send => self.desks[turn.worker] matches Some((_, rest)) && rest.len() > 0,
            Act::Finish => self.desks[turn.worker] matches Some((_, rest)) && rest.len() == 0,
        }
    }

    /// The queue and the workers after the turn.
    pub open spec fn after(self, children: spec_fn(T) -> Seq<T>, turn: Turn<T>) -> Crew<T> {
        let w = turn.worker;
        match turn.act {
            Act::Take(t) => Crew {
                queue: self.queue.remove(t),
                desks: self.desks.update(w, Some((t, children(t)))),
            },
            Act::Send => {
                let (t, rest) = self.desks[w]->0;
                Crew {
                    queue: self.queue.insert(rest[0]),
                    desks: self.desks.update(w, Some((t, rest.drop_first()))),
                }
            },
            Act::Finish => Crew { desks: self.desks.update(w, None), ..self },
        }
    }

    /// The counter of tasks that are not done, queued or at a worker.
    pub open spec fn active(self) -> int {
        self.queue.len() + busy(self.desks)
    }

    /// Nothing is left to do.
    pub open spec fn is_done(self) -> bool {
        &&& self.queue == Multiset::<T>::empty()
        &&& forall|w: int| 0 <= w < self.desks.len() ==> (#[trigger] self.desks[w]) is None
    }
}

/// How many workers are at a task.
pub open spec fn busy<T>(desks: Seq<Desk<T>>) -> int
    decreases desks.len(),
{
    if desks.len() == 0 {
        0
    } else {
        busy(desks.drop_last()) + if desks.last() is Some {
            1int
        } else {
            0int
        }
    }
}

/// The tasks that workers have come upon and not yet sent.
pub open spec fn unsent<T>(desks: Seq<Desk<T>>) -> Multiset<T>
    decreases desks.len(),
{
    if desks.len() == 0 {
        Multiset::empty()
    } else {
        unsent(desks.drop_last()).add(held(desks.last()))
    }
}

/// The tasks that a worker has still to send.
pub open spec fn held<T>(desk: Desk<T>) -> Multiset<T> {
    match desk {
        Some((_, rest)) => rest.to_multiset(),
        None => Multiset::empty(),
    }
}

/// The turns, in the order in which they happen, lead to where nothing is left
/// to do.
pub open spec fn is_schedule<T>(
    children: spec_fn(T) -> Seq<T>,
    crew: Crew<T>,
    turns: Seq<Turn<T>>,
) -> bool
    decreases turns.len(),
{
    if turns.len() == 0 {
        crew.is_done()
    } else {
        crew.allows(turns[0]) && is_schedule(
            children,
            crew.after(children, turns[0]),
            turns.drop_first(),
        )
    }
}

/// The tasks that are taken, in order.
pub open spec fn takes_of<T>(turns: Seq<Turn<T>>) -> Seq<T>
    decreases turns.len(),
{
    if turns.len() == 0 {
        seq![]
    } else {
        match turns[0].act {
            Act::Take(t) => seq![t] + takes_of(turns.drop_first()),
            _ => takes_of(turns.drop_first()),
        }
    }
}

proof fn lemma_desk_changes<T>(desks: Seq<Desk<T>>, w: int, desk: Desk<T>)
    requires
        0 <= w < desks.len(),
    ensures
        unsent(desks.update(w, desk)).add(held(desks[w])) == unsent(desks).add(held(desk)),
        busy(desks.update(w, desk)) == busy(desks) - (if desks[w] is Some {
            1int
        } else {
            0int
        }) + (if desk is Some {
            1int
        } else {
            0int
        }),
    decreases desks.len(),
{
    broadcast use vstd::multiset::group_multiset_axioms;

    let now = desks.update(w, desk);
    if w == desks.len() - 1 {
        assert(now.drop_last() =~= desks.drop_last());
    } else {
        lemma_desk_changes(desks.drop_last(), w, desk);
        assert(now.drop_last() =~= desks.drop_last().update(w, desk));
        assert(now.last() == desks.last());
        let (x, y) = (unsent(now.drop_last()), unsent(desks.drop_last()));
        assert forall|v: T| #[trigger]
            unsent(now).add(held(desks[w])).count(v) == unsent(desks).add(held(desk)).count(v) by {
            assert(x.add(held(desks[w])).count(v) == y.add(held(desk)).count(v));
        }
    }
    assert(unsent(now).add(held(desks[w])) =~= unsent(desks).add(held(desk)));
}

/// The counter goes up with every task that is sent and down with every task
/// that is done, and starts at one.
pub proof fn counter_follows_the_turns<T>(
    children: spec_fn(T) -> Seq<T>,
    crew: Crew<T>,
    turn: Turn<T>,
    root: T,
    workers: nat,
)
    requires
        crew.allows(turn),
    ensures
        crew.after(children, turn).active() == crew.active() + match turn.act {
            Act::Take(_) => 0int,
            Act::Send => 1int,
            Act::Finish => -1int,
        },
        at_start(root, workers).active() == 1,
{
    broadcast use vstd::multiset::group_multiset_axioms;
    broadcast use vstd::seq_lib::group_to_multiset_ensures;

    lemma_desk_changes(crew.desks, turn.worker, crew.after(children, turn).desks[turn.worker]);
    assert(crew.after(children, turn).desks =~= crew.desks.update(
        turn.worker,
        crew.after(children, turn).desks[turn.worker],
    ));
    let start = at_start(root, workers);
    lemma_all_idle(start.desks);
    assert(start.queue.len() == 1);
}

proof fn lemma_all_idle<T>(desks: Seq<Desk<T>>)
    ensures
        busy(desks) >= 0,
        busy(desks) == 0 <==> forall|w: int| 0 <= w < desks.len() ==> (#[trigger] desks[w]) is None,
    decreases desks.len(),
{
    if desks.len() > 0 {
        let fewer = desks.drop_last();
        lemma_all_idle(fewer);
        if busy(desks) == 0 {
            assert forall|w: int| 0 <= w < desks.len() implies (#[trigger] desks[w]) is None by {
                if w < fewer.len() {
                    assert(fewer[w] == desks[w]);
                }
            }
        }
        if forall|w: int| 0 <= w < desks.len() ==> (#[trigger] desks[w]) is None {
            assert forall|w: int| 0 <= w < fewer.len() implies (#[trigger] fewer[w]) is None by {
                assert(fewer[w] == desks[w]);
            }
            assert(desks[desks.len() - 1] is None);
        }
    }
}

/// The counter is zero exactly when nothing is left to do: that is when a
/// worker that finds the queue empty goes home.
pub proof fn zero_is_the_end<T>(crew: Crew<T>)
    ensures
        crew.active() == 0 <==> crew.is_done(),
{
    broadcast use vstd::multiset::group_multiset_axioms;

    lemma_all_idle(crew.desks);
    if crew.queue.len() == 0 {
        assert(crew.queue =~= Multiset::<T>::empty());
    }
}

/// Whatever the turns of the workers, they make a run.
pub proof fn schedules_are_runs<T>(
    children: spec_fn(T) -> Seq<T>,
    crew: Crew<T>,
    turns: Seq<Turn<T>>,
)
    requires
        is_schedule(children, crew, turns),
    ensures
        is_run(children, crew.queue.add(unsent(crew.desks)), takes_of(turns)),
    decreases turns.len(),
{
    broadcast use vstd::multiset::group_multiset_axioms;
    broadcast use vstd::seq_lib::group_to_multiset_ensures;

    let pending = crew.queue.add(unsent(crew.desks));
    if turns.len() == 0 {
        lemma_nothing_held(crew.desks);
        assert(pending =~= Multiset::<T>::empty());
    } else {
        let turn = turns[0];
        let w = turn.worker;
        let next = crew.after(children, turn);
        let rest = turns.drop_first();
        let later = next.queue.add(unsent(next.desks));
        schedules_are_runs(children, next, rest);
        lemma_desk_changes(crew.desks, w, next.desks[w]);
        assert(next.desks =~= crew.desks.update(w, next.desks[w]));
        let (x, y) = (unsent(next.desks), unsent(crew.desks));
        assert(x.add(held(crew.desks[w])) == y.add(held(next.desks[w])));
        match turn.act {
            Act::Take(t) => {
                let takes = takes_of(turns);
                assert(takes.drop_first() =~= takes_of(rest));
                assert(takes[0] == t);
                assert(x =~= y.add(children(t).to_multiset())) by {
                    assert(x.add(held(crew.desks[w])) =~= x);
                }
                assert(later =~= pending.remove(t).add(children(t).to_multiset()));
            },
            Act::Send => {
                let to_send = (crew.desks[w]->0).1;
                let first = to_send[0];
                assert(to_send.contains(first));
                assert(to_send.drop_first() =~= to_send.remove(0));
                assert(to_send.remove(0).to_multiset() =~= to_send.to_multiset().remove(first));
                assert(later =~= pending) by {
                    assert forall|v: T| #[trigger] later.count(v) == pending.count(v) by {
                        assert(x.add(held(crew.desks[w])).count(v) == y.add(
                            held(next.desks[w]),
                        ).count(v));
                    }
                }
            },
            Act::Finish => {
                let to_send = (crew.desks[w]->0).1;
                assert(to_send.to_multiset().len() == 0);
                assert(x =~= y) by {
                    assert forall|v: T| #[trigger] x.count(v) == y.count(v) by {
                        assert(x.add(held(crew.desks[w])).count(v) == y.add(
                            held(next.desks[w]),
                        ).count(v));
                    }
                }
                assert(later =~= pending);
            },
        }
    }
}

proof fn lemma_nothing_held<T>(desks: Seq<Desk<T>>)
    requires
        forall|w: int| 0 <= w < desks.len() ==> (#[trigger] desks[w]) is None,
    ensures
        unsent(desks) == Multiset::<T>::empty(),
    decreases desks.len(),
{
    broadcast use vstd::multiset::group_multiset_axioms;

    if desks.len() > 0 {
        let fewer = desks.drop_last();
        assert forall|w: int| 0 <= w < fewer.len() implies (#[trigger] fewer[w]) is None by {
            assert(fewer[w] == desks[w]);
        }
        lemma_nothing_held(fewer);
        assert(desks[desks.len() - 1] is None);
        assert(unsent(desks) =~= Multiset::<T>::empty());
    }
}

/// A whole schedule is a run from the root.
pub proof fn whole_schedules_are_runs<T>(
    children: spec_fn(T) -> Seq<T>,
    root: T,
    workers: nat,
    turns: Seq<Turn<T>>,
)
    requires
        is_schedule(children, at_start(root, workers), turns),
    ensures
        is_run(children, seq![root].to_multiset(), takes_of(turns)),
{
    broadcast use vstd::multiset::group_multiset_axioms;

    let start = at_start(root, workers);
    schedules_are_runs(children, start, turns);
    lemma_nothing_held(start.desks);
    assert(start.queue.add(unsent(start.desks)) =~= start.queue);
}

/// A pending task is taken sooner or later, and it could as well be taken at
/// once.
proof fn lemma_take_early<T>(
    children: spec_fn(T) -> Seq<T>,
    pending: Multiset<T>,
    takes: Seq<T>,
    a: T,
) -> (i: int)
    requires
        is_run(children, pending, takes),
        pending.contains(a),
    ensures
        0 <= i < takes.len(),
        takes[i] == a,
        is_run(children, pending.remove(a).add(children(a).to_multiset()), takes.remove(i)),
    decreases takes.len(),
{
    broadcast use vstd::multiset::group_multiset_axioms;

    let b = takes[0];
    let rest = takes.drop_first();
    if takes.len() == 0 {
        assert(pending.count(a) == 0);
        0
    } else if b == a {
        assert(takes.remove(0) =~= rest);
        0
    } else {
        let more = children(b).to_multiset();
        let next = pending.remove(b).add(more);
        assert(next.count(a) > 0);
        let i = lemma_take_early(children, next, rest, a);
        let now = pending.remove(a).add(children(a).to_multiset());
        let other = takes.remove(i + 1);
        assert(other[0] == b);
        assert(other.drop_first() =~= rest.remove(i));
        assert(now.count(b) > 0);
        assert(now.remove(b).add(more) =~= next.remove(a).add(children(a).to_multiset()));
        i + 1
    }
}

/// Any two runs from the same tasks take the same tasks, each as often.
pub proof fn runs_take_the_same_tasks<T>(
    children: spec_fn(T) -> Seq<T>,
    pending: Multiset<T>,
    a: Seq<T>,
    b: Seq<T>,
)
    requires
        is_run(children, pending, a),
        is_run(children, pending, b),
    ensures
        a.to_multiset() == b.to_multiset(),
    decreases a.len(),
{
    broadcast use vstd::multiset::group_multiset_axioms;
    broadcast use vstd::seq_lib::group_to_multiset_ensures;

    if a.len() == 0 {
        if b.len() > 0 {
            assert(pending.count(b[0]) == 0);
        }
        assert(a =~= b);
    } else {
        let t = a[0];
        let i = lemma_take_early(children, pending, b, t);
        let next = pending.remove(t).add(children(t).to_multiset());
        runs_take_the_same_tasks(children, next, a.drop_first(), b.remove(i));
        assert(a.drop_first() =~= a.remove(0));
        assert(a.to_multiset() =~= a.remove(0).to_multiset().insert(t)) by {
            assert(a.remove(0).to_multiset() =~= a.to_multiset().remove(t));
            assert(a.to_multiset().count(t) > 0) by {
                assert(a.contains(t));
            }
        }
        assert(b.to_multiset() =~= b.remove(i).to_multiset().insert(t)) by {
            assert(b.remove(i).to_multiset() =~= b.to_multiset().remove(t));
            assert(b.to_multiset().count(t) > 0) by {
                assert(b.contains(t));
            }
        }
    }
}

/// A sum without one of its numbers.
proof fn lemma_amount_without<T>(s: Seq<T>, f: spec_fn(T) -> int, i: int)
    requires
        0 <= i < s.len(),
    ensures
        amount(s, f) == amount(s.remove(i), f) + f(s[i]),
    decreases s.len(),
{
    let rest = s.remove(i);
    if i == s.len() - 1 {
        assert(rest =~= s.drop_last());
    } else {
        lemma_amount_without(s.drop_last(), f, i);
        assert(rest.drop_last() =~= s.drop_last().remove(i));
        assert(rest.last() == s.last());
    }
}

/// The order of a list makes no difference to a sum over it.
pub proof fn amounts_agree<T>(a: Seq<T>, b: Seq<T>, f: spec_fn(T) -> int)
    requires
        a.to_multiset() == b.to_multiset(),
    ensures
        amount(a, f) == amount(b, f),
    decreases a.len(),
{
    broadcast use vstd::multiset::group_multiset_axioms;
    broadcast use vstd::seq_lib::group_to_multiset_ensures;

    assert(a.to_multiset().len() == a.len());
    assert(b.to_multiset().len() == b.len());
    if a.len() > 0 {
        let t = a.last();
        assert(a.contains(t));
        assert(b.to_multiset().count(t) > 0);
        assert(b.contains(t));
        let i = choose|i: int| 0 <= i < b.len() && b[i] == t;
        let n = a.len() - 1;
        assert(a.remove(n) =~= a.drop_last());
        assert(a.remove(n).to_multiset() =~= a.to_multiset().remove(t));
        assert(b.remove(i).to_multiset() =~= b.to_multiset().remove(t));
        amounts_agree(a.drop_last(), b.remove(i), f);
        lemma_amount_without(b, f, i);
    }
}

/// A sum over two lists, one after the other.
proof fn lemma_amount_joined<T>(a: Seq<T>, b: Seq<T>, f: spec_fn(T) -> int)
    ensures
        amount(a + b, f) == amount(a, f) + amount(b, f),
    decreases b.len(),
{
    if b.len() == 0 {
        assert(a + b =~= a);
    } else {
        lemma_amount_joined(a, b.drop_last(), f);
        assert((a + b).drop_last() =~= a + b.drop_last());
    }
}

/// A sum over what a list is turned into.
pub proof fn amounts_of_images<T, U>(s: Seq<T>, g: spec_fn(T) -> U, f: spec_fn(U) -> int)
    ensures
        amount(s.map_values(g), f) == amount(s, |t: T| f(g(t))),
    decreases s.len(),
{
    let h = |t: T| f(g(t));
    if s.len() > 0 {
        amounts_of_images(s.drop_last(), g, f);
        assert(s.map_values(g).drop_last() =~= s.drop_last().map_values(g));
    }
}

/// Larger numbers have a larger sum.
proof fn lemma_amount_le<T>(s: Seq<T>, f: spec_fn(T) -> int, g: spec_fn(T) -> int)
    requires
        forall|i: int| 0 <= i < s.len() ==> f(#[trigger] s[i]) <= g(s[i]),
    ensures
        amount(s, f) <= amount(s, g),
    decreases s.len(),
{
    if s.len() > 0 {
        let fewer = s.drop_last();
        assert forall|i: int| 0 <= i < fewer.len() implies f(#[trigger] fewer[i]) <= g(
            fewer[i],
        ) by {
            assert(fewer[i] == s[i]);
        }
        lemma_amount_le(fewer, f, g);
        assert(f(s[s.len() - 1]) <= g(s[s.len() - 1]));
    }
}

/// Whatever is taken was pending at the start or came out of a task that was
/// taken.
pub proof fn tasks_come_from_tasks<T>(
    children: spec_fn(T) -> Seq<T>,
    start: Seq<T>,
    takes: Seq<T>,
    f: spec_fn(T) -> int,
)
    requires
        is_run(children, start.to_multiset(), takes),
    ensures
        amount(takes, f) == amount(start, f) + amount(takes, |t: T| amount(children(t), f)),
    decreases takes.len(),
{
    broadcast use vstd::multiset::group_multiset_axioms;
    broadcast use vstd::seq_lib::group_to_multiset_ensures;

    let inner = |t: T| amount(children(t), f);
    if takes.len() == 0 {
        assert(start.to_multiset().len() == 0);
        assert(start.len() == 0);
    } else {
        let t = takes[0];
        let rest = takes.drop_first();
        assert(start.to_multiset().count(t) > 0);
        assert(start.contains(t));
        let j = choose|j: int| 0 <= j < start.len() && start[j] == t;
        let left = start.remove(j);
        let next = left + children(t);
        assert(left.to_multiset() =~= start.to_multiset().remove(t));
        vstd::seq_lib::lemma_multiset_commutative(left, children(t));
        assert(next.to_multiset() =~= start.to_multiset().remove(t).add(children(t).to_multiset()));
        tasks_come_from_tasks(children, next, rest, f);
        lemma_amount_joined(left, children(t), f);
        lemma_amount_without(start, f, j);
        lemma_amount_without(takes, f, 0);
        lemma_amount_without(takes, inner, 0);
        assert(takes.remove(0) =~= rest);
    }
}

/// A sum that is not zero has a number that is not.
proof fn lemma_some<T>(s: Seq<T>, f: spec_fn(T) -> int) -> (i: int)
    requires
        amount(s, f) != 0,
    ensures
        0 <= i < s.len(),
        f(s[i]) != 0,
    decreases s.len(),
{
    if s.len() > 0 && f(s.last()) == 0 {
        let i = lemma_some(s.drop_last(), f);
        assert(s.drop_last()[i] == s[i]);
        i
    } else {
        s.len() - 1
    }
}

/// Every task that is taken is the root or came out of one that is taken.
pub proof fn every_task_has_a_source<T>(
    children: spec_fn(T) -> Seq<T>,
    root: T,
    takes: Seq<T>,
    i: int,
)
    requires
        is_run(children, seq![root].to_multiset(), takes),
        0 <= i < takes.len(),
    ensures
        takes[i] == root || exists|j: int|
            0 <= j < takes.len() && children(#[trigger] takes[j]).contains(takes[i]),
{
    let x = takes[i];
    let f = |t: T|
        if t == x {
            1int
        } else {
            0int
        };
    let inner = |t: T| amount(children(t), f);
    tasks_come_from_tasks(children, seq![root], takes, f);
    lemma_amount_without(takes, f, i);
    lemma_nothing(takes.remove(i), |t: T| 0int);
    lemma_amount_le(takes.remove(i), |t: T| 0int, f);
    if amount(seq![root], f) != 0 {
        let k = lemma_some(seq![root], f);
    } else {
        let j = lemma_some(takes, inner);
        let k = lemma_some(children(takes[j]), f);
        assert(children(takes[j])[k] == x);
    }
}

/// The root is taken.
pub proof fn the_root_is_taken<T>(children: spec_fn(T) -> Seq<T>, root: T, takes: Seq<T>)
    requires
        is_run(children, seq![root].to_multiset(), takes),
    ensures
        takes.len() > 0,
        takes[0] == root,
{
    broadcast use vstd::multiset::group_multiset_axioms;
    broadcast use vstd::seq_lib::group_to_multiset_ensures;

    let start = seq![root].to_multiset();
    if takes.len() == 0 {
        assert(seq![root].contains(seq![root][0]));
        assert(start.count(root) > 0);
    } else {
        assert(start.count(takes[0]) > 0);
        assert(seq![root].contains(takes[0]));
    }
}

/// What holds of the tasks at the start, and of the children of every task of
/// which it holds, holds of every task that is taken.
pub proof fn what_is_passed_on_holds<T>(
    children: spec_fn(T) -> Seq<T>,
    pending: Multiset<T>,
    takes: Seq<T>,
    good: spec_fn(T) -> bool,
)
    requires
        is_run(children, pending, takes),
        forall|t: T| #[trigger] pending.contains(t) ==> good(t),
        forall|t: T, i: int|
            good(t) && 0 <= i < children(t).len() ==> good(#[trigger] children(t)[i]),
    ensures
        forall|i: int| 0 <= i < takes.len() ==> good(#[trigger] takes[i]),
    decreases takes.len(),
{
    broadcast use vstd::multiset::group_multiset_axioms;
    broadcast use vstd::seq_lib::group_to_multiset_ensures;

    if takes.len() > 0 {
        let t = takes[0];
        let rest = takes.drop_first();
        let next = pending.remove(t).add(children(t).to_multiset());
        assert forall|x: T| #[trigger] next.contains(x) implies good(x) by {
            if !pending.contains(x) {
                assert(children(t).to_multiset().count(x) > 0);
                assert(children(t).contains(x));
                let i = children(t).index_of(x);
                assert(children(t)[i] == x);
            }
        }
        what_is_passed_on_holds(children, next, rest, good);
        assert forall|i: int| 0 <= i < takes.len() implies good(#[trigger] takes[i]) by {
            if i > 0 {
                assert(takes[i] == rest[i - 1]);
            }
        }
    }
}

/// The entries of a listing have names, each another one.
pub open spec fn distinct_names(entries: Seq<DirEntry>) -> bool {
    &&& forall|i: int| 0 <= i < entries.len() ==> paths::is_name((#[trigger] entries[i]).name@)
    &&& forall|i: int, j: int|
        0 <= i < j < entries.len() ==> (#[trigger] entries[i]).name@ != (
        #[trigger] entries[j]).name@
}

/// The task of walking a directory, by its path and the ignore layers that
/// come down to it.
pub ghost struct Job {
    pub path: Seq<char>,
    pub layers: Seq<Layer>,
}

/// The tasks are for entries of `dir`, each for another one.
pub open spec fn are_entries<T>(
    path: spec_fn(T) -> Seq<char>,
    tasks: Seq<T>,
    dir: Seq<char>,
) -> bool {
    &&& forall|i: int| 0 <= i < tasks.len() ==> paths::is_entry(dir, path(#[trigger] tasks[i]))
    &&& forall|i: int, j: int|
        0 <= i < j < tasks.len() ==> path(#[trigger] tasks[i]) != path(#[trigger] tasks[j])
}

/// The root, or something below it.
spec fn is_below(root: Seq<char>, p: Seq<char>) -> bool {
    p == root || (p.len() > root.len() && p.last() != '/')
}

proof fn lemma_joined(dir: Seq<char>, name: Seq<char>)
    requires
        paths::is_name(name),
    ensures
        paths::joined(dir, name).len() > dir.len(),
        paths::joined(dir, name).len() >= name.len(),
        paths::joined(dir, name).last() == name.last(),
        name.last() != '/',
        paths::joined(dir, name).skip(paths::joined(dir, name).len() - name.len()) == name,
{
    let p = paths::joined(dir, name);
    assert(p.skip(p.len() - name.len()) =~= name);
    assert(name[name.len() - 1] != '/');
}

/// The path of an entry tells its directory, among those below a root.
proof fn lemma_one_directory(
    root: Seq<char>,
    d1: Seq<char>,
    n1: Seq<char>,
    d2: Seq<char>,
    n2: Seq<char>,
)
    requires
        is_below(root, d1),
        is_below(root, d2),
        paths::is_name(n1),
        paths::is_name(n2),
        paths::joined(d1, n1) == paths::joined(d2, n2),
    ensures
        d1 == d2,
{
    let q = paths::joined(d1, n1);
    lemma_joined(d1, n1);
    lemma_joined(d2, n2);
    lemma_same_length(d1, n1, d2, n2);
    lemma_same_length(d2, n2, d1, n1);
    let n = q.len() - n1.len();
    let head = q.take(n);
    let p1 = d1.len() == 0 || d1.last() == '/';
    let p2 = d2.len() == 0 || d2.last() == '/';
    assert(head =~= if p1 {
        d1
    } else {
        d1.push('/')
    });
    assert(head =~= if p2 {
        d2
    } else {
        d2.push('/')
    });
    if p1 && p2 {
    } else if !p1 && !p2 {
        assert(d1 =~= head.drop_last());
        assert(d2 =~= head.drop_last());
    }
}

proof fn lemma_same_length(d1: Seq<char>, n1: Seq<char>, d2: Seq<char>, n2: Seq<char>)
    requires
        paths::is_name(n1),
        paths::is_name(n2),
        paths::joined(d1, n1) == paths::joined(d2, n2),
    ensures
        n1.len() >= n2.len(),
{
    let q = paths::joined(d1, n1);
    lemma_joined(d1, n1);
    lemma_joined(d2, n2);
    if n1.len() < n2.len() {
        let at = q.len() - n1.len() - 1;
        assert(q.skip(q.len() - n2.len())[n2.len() - n1.len() - 1] == q[at]);
        assert(n2[n2.len() - n1.len() - 1] == q[at]);
        assert(at >= 0);
        assert(q[at] == '/');
    }
}

/// Whether a task is for the path `q`, as a number.
pub open spec fn is_at<T>(path: spec_fn(T) -> Seq<char>, q: Seq<char>) -> spec_fn(T) -> int {
    |t: T|
        if path(t) == q {
            1int
        } else {
            0int
        }
}

/// Among entries of one directory, a path turns up once at most.
proof fn lemma_at_most_one<T>(path: spec_fn(T) -> Seq<char>, tasks: Seq<T>, q: Seq<char>)
    requires
        forall|i: int, j: int|
            0 <= i < j < tasks.len() ==> path(#[trigger] tasks[i]) != path(#[trigger] tasks[j]),
    ensures
        0 <= amount(tasks, is_at(path, q)) <= 1,
        amount(tasks, is_at(path, q)) == 0 <==> forall|i: int|
            0 <= i < tasks.len() ==> path(#[trigger] tasks[i]) != q,
    decreases tasks.len(),
{
    if tasks.len() > 0 {
        let fewer = tasks.drop_last();
        assert forall|i: int, j: int| 0 <= i < j < fewer.len() implies path(#[trigger] fewer[i])
            != path(#[trigger] fewer[j]) by {
            assert(fewer[i] == tasks[i] && fewer[j] == tasks[j]);
        }
        lemma_at_most_one(path, fewer, q);
        let last = tasks[tasks.len() - 1];
        assert forall|i: int| 0 <= i < fewer.len() && path(#[trigger] fewer[i]) == q implies path(
            last,
        ) != q by {
            assert(fewer[i] == tasks[i]);
        }
        if forall|i: int| 0 <= i < fewer.len() ==> path(#[trigger] fewer[i]) != q {
            if path(last) != q {
                assert forall|i: int| 0 <= i < tasks.len() implies path(#[trigger] tasks[i])
                    != q by {
                    if i < fewer.len() {
                        assert(fewer[i] == tasks[i]);
                    }
                }
            }
        } else {
            let i = choose|i: int| 0 <= i < fewer.len() && path(#[trigger] fewer[i]) == q;
            assert(path(tasks[i]) == q);
        }
    }
}

proof fn lemma_nothing<T>(s: Seq<T>, f: spec_fn(T) -> int)
    requires
        forall|i: int| 0 <= i < s.len() ==> f(#[trigger] s[i]) == 0,
    ensures
        amount(s, f) == 0,
    decreases s.len(),
{
    if s.len() > 0 {
        let fewer = s.drop_last();
        assert forall|i: int| 0 <= i < fewer.len() implies f(#[trigger] fewer[i]) == 0 by {
            assert(fewer[i] == s[i]);
        }
        lemma_nothing(fewer, f);
        assert(f(s[s.len() - 1]) == 0);
    }
}

/// The directories that are taken lie below the root.
proof fn lemma_all_below<T>(
    children: spec_fn(T) -> Seq<T>,
    path: spec_fn(T) -> Seq<char>,
    root: T,
    takes: Seq<T>,
)
    requires
        is_run(children, seq![root].to_multiset(), takes),
        forall|t: T| are_entries(path, #[trigger] children(t), path(t)),
    ensures
        forall|i: int| 0 <= i < takes.len() ==> is_below(path(root), path(#[trigger] takes[i])),
{
    broadcast use vstd::seq_lib::group_to_multiset_ensures;

    let good = |t: T| is_below(path(root), path(t));
    assert forall|t: T| #[trigger] seq![root].to_multiset().contains(t) implies good(t) by {
        assert(seq![root].contains(t));
    }
    assert forall|t: T, i: int| good(t) && 0 <= i < children(t).len() implies good(
        #[trigger] children(t)[i],
    ) by {
        assert(are_entries(path, children(t), path(t)));
        let c = children(t)[i];
        assert(paths::is_entry(path(t), path(c)));
        let name = choose|name: Seq<char>|
            paths::is_name(name) && path(c) == #[trigger] paths::joined(path(t), name);
        lemma_joined(path(t), name);
    }
    what_is_passed_on_holds(children, seq![root].to_multiset(), takes, good);
    assert forall|i: int| 0 <= i < takes.len() implies is_below(
        path(root),
        path(#[trigger] takes[i]),
    ) by {
        assert(good(takes[i]));
    }
}

/// Where the tasks are directories of a tree, and the children of each are
/// entries of it, no directory is taken twice.
pub proof fn no_path_is_taken_twice<T>(
    children: spec_fn(T) -> Seq<T>,
    path: spec_fn(T) -> Seq<char>,
    root: T,
    takes: Seq<T>,
    q: Seq<char>,
)
    requires
        is_run(children, seq![root].to_multiset(), takes),
        forall|t: T| are_entries(path, #[trigger] children(t), path(t)),
    ensures
        amount(takes, is_at(path, q)) <= 1,
    decreases q.len(),
{
    broadcast use vstd::multiset::group_multiset_axioms;
    broadcast use vstd::seq_lib::group_to_multiset_ensures;

    let base = path(root);
    let f = is_at(path, q);
    let inner = |t: T| amount(children(t), f);
    lemma_all_below(children, path, root, takes);
    tasks_come_from_tasks(children, seq![root], takes, f);
    assert(amount(seq![root], f) == f(root)) by {
        assert(seq![root].drop_last() =~= Seq::<T>::empty());
        assert(amount(Seq::<T>::empty(), f) == 0);
    }
    assert forall|i: int| 0 <= i < takes.len() implies 0 <= inner(#[trigger] takes[i]) <= 1 by {
        assert(are_entries(path, children(takes[i]), path(takes[i])));
        lemma_at_most_one(path, children(takes[i]), q);
    }
    if forall|i: int| 0 <= i < takes.len() ==> inner(#[trigger] takes[i]) == 0 {
        lemma_nothing(takes, inner);
    } else {
        let k = choose|k: int| 0 <= k < takes.len() && inner(#[trigger] takes[k]) != 0;
        let d = path(takes[k]);
        lemma_parent(children, path, takes[k], q);
        let n1 = choose|name: Seq<char>|
            paths::is_name(name) && q == #[trigger] paths::joined(d, name);
        lemma_joined(d, n1);
        assert(is_below(base, path(takes[k])));
        assert(q != base);
        assert forall|i: int| 0 <= i < takes.len() implies inner(#[trigger] takes[i]) <= is_at(
            path,
            d,
        )(takes[i]) by {
            if inner(takes[i]) != 0 {
                lemma_parent(children, path, takes[i], q);
                let di = path(takes[i]);
                let n2 = choose|name: Seq<char>|
                    paths::is_name(name) && q == #[trigger] paths::joined(di, name);
                assert(is_below(base, path(takes[i])));
                lemma_one_directory(base, d, n1, di, n2);
            }
        }
        lemma_amount_le(takes, inner, is_at(path, d));
        no_path_is_taken_twice(children, path, root, takes, d);
    }
}

/// A task with a child at `q` is for the directory of `q`.
proof fn lemma_parent<T>(
    children: spec_fn(T) -> Seq<T>,
    path: spec_fn(T) -> Seq<char>,
    t: T,
    q: Seq<char>,
)
    requires
        are_entries(path, children(t), path(t)),
        amount(children(t), is_at(path, q)) != 0,
    ensures
        paths::is_entry(path(t), q),
{
    lemma_at_most_one(path, children(t), q);
    let i = choose|i: int| 0 <= i < children(t).len() && path(#[trigger] children(t)[i]) == q;
    assert(paths::is_entry(path(t), path(children(t)[i])));
}

/// A list in which a path turns up once at most has it in one place at most.
pub proof fn one_place_for_a_path<T>(path: spec_fn(T) -> Seq<char>, s: Seq<T>, i: int, j: int)
    requires
        0 <= i < s.len(),
        0 <= j < s.len(),
        path(s[i]) == path(s[j]),
        amount(s, is_at(path, path(s[i]))) <= 1,
    ensures
        i == j,
{
    let f = is_at(path, path(s[i]));
    if i != j {
        lemma_amount_without(s, f, i);
        let rest = s.remove(i);
        let k = if j < i {
            j
        } else {
            j - 1
        };
        assert(rest[k] == s[j]);
        lemma_amount_without(rest, f, k);
        lemma_nothing(rest.remove(k), |t: T| 0int);
        lemma_amount_le(rest.remove(k), |t: T| 0int, f);
    }
}

/// Where the tasks are directories of a tree, the one that holds a path is
/// taken once.
pub proof fn one_task_holds_a_path<T>(
    children: spec_fn(T) -> Seq<T>,
    path: spec_fn(T) -> Seq<char>,
    root: T,
    takes: Seq<T>,
    i: int,
    first: Seq<char>,
    j: int,
    second: Seq<char>,
)
    requires
        is_run(children, seq![root].to_multiset(), takes),
        forall|t: T| are_entries(path, #[trigger] children(t), path(t)),
        0 <= i < takes.len(),
        0 <= j < takes.len(),
        paths::is_name(first),
        paths::is_name(second),
        paths::joined(path(takes[i]), first) == paths::joined(path(takes[j]), second),
    ensures
        i == j,
{
    lemma_all_below(children, path, root, takes);
    assert(is_below(path(root), path(takes[i])));
    assert(is_below(path(root), path(takes[j])));
    lemma_one_directory(path(root), path(takes[i]), first, path(takes[j]), second);
    no_path_is_taken_twice(children, path, root, takes, path(takes[i]));
    one_place_for_a_path(path, takes, i, j);
}

/// The part of a stream that came from source `k`.
pub open spec fn part_of<R>(stream: Seq<(int, R)>, k: int) -> Seq<R>
    decreases stream.len(),
{
    if stream.len() == 0 {
        seq![]
    } else {
        let before = part_of(stream.drop_last(), k);
        if stream.last().0 == k {
            before.push(stream.last().1)
        } else {
            before
        }
    }
}

/// Several lists run together into one stream: each keeps its order, and
/// nothing more is said of how they mix.
pub open spec fn interleaves<R>(stream: Seq<(int, R)>, parts: Seq<Seq<R>>) -> bool {
    &&& forall|i: int| 0 <= i < stream.len() ==> 0 <= (#[trigger] stream[i]).0 < parts.len()
    &&& forall|k: int| 0 <= k < parts.len() ==> part_of(stream, k) == #[trigger] parts[k]
}

/// What comes out of a stream.
pub open spec fn output<R>(stream: Seq<(int, R)>) -> Seq<R> {
    Seq::new(stream.len(), |i: int| stream[i].1)
}

/// A stream without its last item is a stream of shorter parts.
proof fn lemma_shorter_stream<R>(stream: Seq<(int, R)>, parts: Seq<Seq<R>>) -> (fewer: Seq<Seq<R>>)
    requires
        stream.len() > 0,
        interleaves(stream, parts),
    ensures
        0 <= stream.last().0 < parts.len(),
        parts[stream.last().0].len() > 0,
        parts[stream.last().0].last() == stream.last().1,
        fewer == parts.update(stream.last().0, parts[stream.last().0].drop_last()),
        interleaves(stream.drop_last(), fewer),
        output(stream) == output(stream.drop_last()).push(stream.last().1),
{
    let k = stream.last().0;
    let short = stream.drop_last();
    assert(stream[stream.len() - 1].0 == k);
    assert(part_of(stream, k) == parts[k]);
    assert(parts[k].drop_last() =~= part_of(short, k));
    let fewer = parts.update(k, parts[k].drop_last());
    assert forall|i: int| 0 <= i < short.len() implies 0 <= (#[trigger] short[i]).0
        < fewer.len() by {
        assert(short[i] == stream[i]);
    }
    assert forall|j: int| 0 <= j < fewer.len() implies part_of(short, j) == #[trigger] fewer[j] by {
        if j != k {
            assert(part_of(stream, j) == parts[j]);
        }
    }
    assert(output(stream) =~= output(short).push(stream.last().1));
    fewer
}

/// How often something comes out of a list.
pub open spec fn times<R>(r: R) -> spec_fn(Seq<R>) -> int {
    |p: Seq<R>| p.to_multiset().count(r) as int
}

/// A list that changes in one place changes a sum by the difference.
proof fn lemma_amount_update<T>(s: Seq<T>, f: spec_fn(T) -> int, k: int, x: T)
    requires
        0 <= k < s.len(),
    ensures
        amount(s.update(k, x), f) == amount(s, f) - f(s[k]) + f(x),
{
    lemma_amount_without(s, f, k);
    lemma_amount_without(s.update(k, x), f, k);
    assert(s.update(k, x).remove(k) =~= s.remove(k));
}

/// Everything comes out of a stream as often as it went in.
pub proof fn streams_lose_nothing<R>(stream: Seq<(int, R)>, parts: Seq<Seq<R>>, r: R)
    requires
        interleaves(stream, parts),
    ensures
        output(stream).to_multiset().count(r) == amount(parts, times(r)),
    decreases stream.len(),
{
    broadcast use vstd::multiset::group_multiset_axioms;
    broadcast use vstd::seq_lib::group_to_multiset_ensures;

    if stream.len() == 0 {
        assert(output(stream) =~= Seq::<R>::empty());
        assert forall|k: int| 0 <= k < parts.len() implies times(r)(#[trigger] parts[k]) == 0 by {
            assert(part_of(stream, k) == parts[k]);
            assert(parts[k] =~= Seq::<R>::empty());
        }
        lemma_nothing(parts, times(r));
        assert(output(stream).to_multiset().len() == 0);
    } else {
        let k = stream.last().0;
        let fewer = lemma_shorter_stream(stream, parts);
        streams_lose_nothing(stream.drop_last(), fewer, r);
        lemma_amount_update(parts, times(r), k, parts[k].drop_last());
        assert(parts[k] =~= parts[k].drop_last().push(stream.last().1));
    }
}

/// What only one source has comes out in the order in which that source has
/// it.
pub proof fn streams_keep_order<R>(
    stream: Seq<(int, R)>,
    parts: Seq<Seq<R>>,
    p: spec_fn(R) -> bool,
    k: int,
)
    requires
        interleaves(stream, parts),
        0 <= k < parts.len(),
        forall|j: int, i: int|
            0 <= j < parts.len() && j != k && 0 <= i < parts[j].len() ==> !p(
                #[trigger] parts[j][i],
            ),
    ensures
        output(stream).filter(p) == parts[k].filter(p),
    decreases stream.len(),
{
    reveal(Seq::filter);
    if stream.len() == 0 {
        assert(output(stream) =~= Seq::<R>::empty());
        assert(part_of(stream, k) == parts[k]);
        assert(parts[k] =~= Seq::<R>::empty());
    } else {
        let j = stream.last().0;
        let x = stream.last().1;
        let short = stream.drop_last();
        let fewer = lemma_shorter_stream(stream, parts);
        assert forall|m: int, i: int|
            0 <= m < fewer.len() && m != k && 0 <= i < fewer[m].len() implies !p(
            #[trigger] fewer[m][i],
        ) by {
            assert(fewer[m][i] == parts[m][i]);
        }
        streams_keep_order(short, fewer, p, k);
        assert(output(stream).drop_last() =~= output(short));
        assert(output(stream).last() == x);
        if j == k {
            assert(fewer[k] == parts[k].drop_last());
        } else {
            assert(!p(parts[j][parts[j].len() - 1]));
            assert(fewer[k] == parts[k]);
        }
    }
}

} // verus!
