//! Named tasks with message queues, spawned under capability and policy
//! checks.

use vstd::prelude::*;
use crate::proto::cap::{CapSet, Capability};
use crate::proto::ipc::{Message, MessageQueue};
use crate::proto::policy::{
    Action,
    PolicyEngine,
    is_send_to,
    lemma_check_send_agrees,
    spec_check,
    spec_check_send,
};
use crate::proto::scheduler::{RoundRobinScheduler, Scheduler};

verus! {

#[derive(Debug, Clone, Copy, PartialEq, Eq, Structural)]
pub enum TaskState {
    Ready,
    Running,
    Blocked,
    Terminated,
}

/// One task: its id, name, state, and inbox.
#[derive(Debug)]
pub struct Task {
    pub id: usize,
    pub name: String,
    pub state: TaskState,
    pub msg_queue: MessageQueue,
}

impl Task {
    /// A fresh, ready task with an inbox of ten messages.
    pub fn new(id: usize, name: String) -> (r: Self)
        ensures
            r.id == id,
            r.name@ == name@,
            r.state is Ready,
            r.msg_queue.spec_queue() == Seq::<Message>::empty(),
            r.msg_queue.spec_limit() == 10,
    {
        Task { id, name, state: TaskState::Ready, msg_queue: MessageQueue::new(10) }
    }

    /// Queues the message in the task inbox, up to its limit.
    pub fn send_message(&mut self, msg: Message) -> (r: Result<(), &'static str>)
        ensures
            final(self).id == old(self).id && final(self).name@ == old(self).name@ && final(self).state == old(self).state,
            final(self).msg_queue.spec_limit() == old(self).msg_queue.spec_limit(),
            old(self).msg_queue.spec_queue().len() >= old(self).msg_queue.spec_limit() ==> r
                is Err && final(self).msg_queue.spec_queue() == old(self).msg_queue.spec_queue(),
            old(self).msg_queue.spec_queue().len() < old(self).msg_queue.spec_limit() ==> r is Ok
                && final(self).msg_queue.spec_queue() == old(self).msg_queue.spec_queue().push(
                msg,
            ),
    {
        self.msg_queue.enqueue(msg)
    }

    /// Takes the oldest message from the inbox, if any.
    pub fn receive_message(&mut self) -> (r: Option<Message>)
        ensures
            final(self).id == old(self).id && final(self).name@ == old(self).name@ && final(self).state == old(self).state,
            final(self).msg_queue.spec_limit() == old(self).msg_queue.spec_limit(),
            old(self).msg_queue.spec_queue().len() == 0 ==> r is None && final(self).msg_queue.spec_queue() == old(self).msg_queue.spec_queue(),
            old(self).msg_queue.spec_queue().len() > 0 ==> r == Some(
                old(self).msg_queue.spec_queue()[0],
            ) && final(self).msg_queue.spec_queue() == old(self).msg_queue.spec_queue().skip(1),
    {
        self.msg_queue.dequeue()
    }
}

/// A task of this name exists in the table.
pub open spec fn has_named(ts: Seq<Task>, name: Seq<char>) -> bool {
    exists|i: int| 0 <= i < ts.len() && (#[trigger] ts[i]).name@ == name
}

/// The first task of this name, or the length when none carries it.
pub open spec fn first_named(ts: Seq<Task>, name: Seq<char>, i: int) -> int
    decreases ts.len() - i,
{
    if i < 0 || i >= ts.len() {
        ts.len() as int
    } else if ts[i].name@ == name {
        i
    } else {
        first_named(ts, name, i + 1)
    }
}

proof fn lemma_first_named_skip(ts: Seq<Task>, name: Seq<char>, a: int, b: int)
    requires
        0 <= a <= b <= ts.len(),
        forall|j: int| a <= j < b ==> (#[trigger] ts[j]).name@ != name,
    ensures
        first_named(ts, name, a) == first_named(ts, name, b),
    decreases b - a,
{
    if a < b {
        lemma_first_named_skip(ts, name, a + 1, b);
    }
}

/// Owns the task table; spawning and messaging go through capability and
/// policy checks.
pub struct TaskManager {
    pub next_id: usize,
    pub tasks: Vec<Task>,
    pub scheduler: RoundRobinScheduler,
}

impl TaskManager {
    pub open spec fn spec_next_id(&self) -> usize {
        self.next_id
    }

    pub fn new() -> (r: Self)
        ensures
            r.tasks@.len() == 0,
            r.spec_next_id() == 0,
    {
        TaskManager { next_id: 0, tasks: Vec::new(), scheduler: RoundRobinScheduler::new() }
    }

    /// Appends a fresh task when the caller may spawn and policy admits the
    /// name; returns its index. Ids simply count up.
    pub fn spawn(&mut self, name: &str, caps: &CapSet, policy: &PolicyEngine) -> (r: Result<
        usize,
        &'static str,
    >)
        requires
            old(self).spec_next_id() < usize::MAX,
        ensures
            !caps.spec_allowed().contains(Capability::SpawnTask) ==> r is Err && *final(self)
                == *old(self),
            caps.spec_allowed().contains(Capability::SpawnTask) && !spec_check(
                policy.spec_rules(),
                name@,
                &Action::StartTask,
            ) ==> r is Err && *final(self) == *old(self),
            caps.spec_allowed().contains(Capability::SpawnTask) && spec_check(
                policy.spec_rules(),
                name@,
                &Action::StartTask,
            ) ==> {
                &&& r == Result::<usize, &'static str>::Ok(old(self).tasks@.len() as usize)
                &&& final(self).tasks@.len() == old(self).tasks@.len() + 1
                &&& (forall|i: int| 0 <= i < old(self).tasks@.len() ==> final(self).tasks@[i]
                    == old(self).tasks@[i])
                &&& final(self).tasks@[old(self).tasks@.len() as int].name@ == name@
                &&& final(self).tasks@[old(self).tasks@.len() as int].id == old(self).spec_next_id()
                &&& final(self).tasks@[old(self).tasks@.len() as int].state is Ready
                &&& final(self).spec_next_id() == old(self).spec_next_id() + 1
            },
    {
        if !caps.has(&Capability::SpawnTask) {
            return Err("Insufficient capabilities to spawn task");
        }
        if !policy.check(name, &Action::StartTask) {
            return Err("Policy denies the start request");
        }
        let task = Task::new(self.next_id, name.to_owned());
        let idx = self.tasks.len();
        self.tasks.push(task);
        self.next_id = self.next_id + 1;
        Ok(idx)
    }

    /// Marks the first ready task running and returns its index.
    pub fn run_next(&mut self) -> (r: Option<usize>)
        ensures
            r is None ==> *final(self) == *old(self) && (forall|i: int|
                0 <= i < old(self).tasks@.len() ==> !((#[trigger] old(self).tasks@[i]).state
                    is Ready)),
            r matches Some(i) ==> i < old(self).tasks@.len() && old(self).tasks@[i as int].state
                is Ready && final(self).tasks@.len() == old(self).tasks@.len() && final(self).tasks@[i as int].state is Running && (forall|j: int|
                0 <= j < old(self).tasks@.len() && j != i ==> final(self).tasks@[j] == old(self).tasks@[j]),
    {
        let selected = self.scheduler.select(&self.tasks);
        match selected {
            Some(i) => {
                let t = task_at_mut(&mut self.tasks, i);
                t.state = TaskState::Running;
                Some(i)
            },
            None => None,
        }
    }

    /// Routes a message. Checked in order: the sender needs `SendMessage`,
    /// policy must admit the send, then both tasks must exist by name; the
    /// first failure returns its error untouched. On success the message goes
    /// to the first task of the receiver's name, whose inbox may still be
    /// full.
    pub fn send_message(
        &mut self,
        sender: &str,
        receiver: &str,
        payload: Vec<u8>,
        caps: &CapSet,
        policy: &PolicyEngine,
    ) -> (r: Result<(), &'static str>)
        ensures
            ({
                let gate_caps = caps.spec_allowed().contains(Capability::SendMessage);
                let gate_policy = spec_check_send(policy.spec_rules(), sender@, receiver@);
                let gate_sender = has_named(old(self).tasks@, sender@);
                let gate_receiver = has_named(old(self).tasks@, receiver@);
                &&& !gate_caps ==> r is Err && *final(self) == *old(self)
                &&& gate_caps && !gate_policy ==> r is Err && *final(self) == *old(self)
                &&& gate_caps && gate_policy && !gate_sender ==> r is Err && *final(self)
                    == *old(self)
                &&& gate_caps && gate_policy && gate_sender && !gate_receiver ==> r is Err
                    && *final(self) == *old(self)
                &&& gate_caps && gate_policy && gate_sender && gate_receiver ==> {
                    let k = first_named(old(self).tasks@, receiver@, 0);
                    let t0 = old(self).tasks@[k];
                    let t1 = final(self).tasks@[k];
                    let q0 = t0.msg_queue.spec_queue();
                    let q1 = t1.msg_queue.spec_queue();
                    &&& 0 <= k < old(self).tasks@.len()
                    &&& final(self).tasks@.len() == old(self).tasks@.len()
                    &&& (forall|j: int| 0 <= j < old(self).tasks@.len() && j != k
                        ==> final(self).tasks@[j] == old(self).tasks@[j])
                    &&& final(self).next_id == old(self).next_id
                    &&& final(self).scheduler == old(self).scheduler
                    &&& t1.id == t0.id && t1.name@ == t0.name@ && t1.state == t0.state
                    &&& t1.msg_queue.spec_limit() == t0.msg_queue.spec_limit()
                    &&& q0.len() >= t0.msg_queue.spec_limit() ==> r is Err && q1 == q0
                    &&& q0.len() < t0.msg_queue.spec_limit() ==> r is Ok && q1.len() == q0.len()
                        + 1 && (forall|j: int| 0 <= j < q0.len() ==> q1[j] == q0[j])
                        && q1.last().sender@ == sender@ && q1.last().payload@ == payload@
                }
            }),
    {
        let ghost ts = self.tasks@;
        if !caps.has(&Capability::SendMessage) {
            return Err("Missing SendMessage capability");
        }
        let act = Action::SendMessageTo(receiver.to_owned());
        proof {
            assert(is_send_to(&act, receiver@));
            lemma_check_send_agrees(policy.spec_rules(), sender@, &act, receiver@);
        }
        if !policy.check(sender, &act) {
            return Err("Policy denies sending message");
        }
        let n = self.tasks.len();
        let mut sender_exists = false;
        let mut i: usize = 0;
        while i < n
            invariant
                *self == *old(self),
                ts == self.tasks@,
                n == ts.len(),
                i <= n,
                caps.spec_allowed().contains(Capability::SendMessage),
                spec_check_send(policy.spec_rules(), sender@, receiver@),
                sender_exists == exists|j: int|
                    0 <= j < i && (#[trigger] ts[j]).name@ == sender@,
            decreases n - i,
        {
            if eq_str(self.tasks[i].name.as_str(), sender) {
                sender_exists = true;
            }
            i = i + 1;
        }
        if !sender_exists {
            proof {
                assert(!has_named(ts, sender@));
            }
            return Err("Sender task not found");
        }
        let mut k: usize = 0;
        while k < n
            invariant
                *self == *old(self),
                ts == self.tasks@,
                n == ts.len(),
                k <= n,
                caps.spec_allowed().contains(Capability::SendMessage),
                spec_check_send(policy.spec_rules(), sender@, receiver@),
                has_named(ts, sender@),
                forall|j: int| 0 <= j < k ==> (#[trigger] ts[j]).name@ != receiver@,
            decreases n - k,
        {
            if eq_str(self.tasks[k].name.as_str(), receiver) {
                proof {
                    lemma_first_named_skip(ts, receiver@, 0, k as int);
                    assert(first_named(ts, receiver@, 0) == k);
                    assert(has_named(ts, receiver@));
                }
                let msg = Message { sender: sender.to_owned(), payload };
                let t = task_at_mut(&mut self.tasks, k);
                let r = t.send_message(msg);
                return r;
            }
            k = k + 1;
        }
        proof {
            assert(!has_named(ts, receiver@));
        }
        Err("Receiver task not found")
    }
}

/// Mutable access to one task.
fn task_at_mut(v: &mut Vec<Task>, i: usize) -> (r: &mut Task)
    requires
        i < old(v)@.len(),
    ensures
        *r == old(v)@[i as int],
        final(v)@ == old(v)@.update(i as int, *final(r)),
{
    &mut v[i]
}

/// String equality by characters.
fn eq_str(a: &str, b: &str) -> (r: bool)
    ensures
        r == (a@ == b@),
{
    let av = a.to_owned();
    let bv = b.to_owned();
    av == bv
}

} // verus!
