//! Name-keyed policy rules: the first rule matching subject and action
//! decides.

use vstd::prelude::*;

verus! {

/// What a subject may ask to do; device and message actions carry a name.
#[derive(Debug)]
pub enum Action {
    StartTask,
    AccessDevice(String),
    WriteTo(String),
    SendMessageTo(String),
    ReceiveMessage,
}

/// Equality of actions, by kind and carried name.
pub open spec fn action_matches(a: &Action, b: &Action) -> bool {
    match (a, b) {
        (Action::StartTask, Action::StartTask) => true,
        (Action::AccessDevice(x), Action::AccessDevice(y)) => x@ == y@,
        (Action::WriteTo(x), Action::WriteTo(y)) => x@ == y@,
        (Action::SendMessageTo(x), Action::SendMessageTo(y)) => x@ == y@,
        (Action::ReceiveMessage, Action::ReceiveMessage) => true,
        _ => false,
    }
}

/// Whether two actions are the same request.
pub fn action_eq(a: &Action, b: &Action) -> (r: bool)
    ensures
        r == action_matches(a, b),
{
    match (a, b) {
        (Action::StartTask, Action::StartTask) => true,
        (Action::AccessDevice(x), Action::AccessDevice(y)) => string_eq(x, y),
        (Action::WriteTo(x), Action::WriteTo(y)) => string_eq(x, y),
        (Action::SendMessageTo(x), Action::SendMessageTo(y)) => string_eq(x, y),
        (Action::ReceiveMessage, Action::ReceiveMessage) => true,
        _ => false,
    }
}

/// String equality by characters.
fn string_eq(a: &String, b: &String) -> (r: bool)
    ensures
        r == (a@ == b@),
{
    *a == *b
}

/// One rule: the named subject may (or may not) take the action.
#[derive(Debug)]
pub struct PolicyRule {
    pub subject: String,
    pub action: Action,
    pub allow: bool,
}

/// The rule that decides for this subject and action: the first match, or
/// the length when none matches.
pub open spec fn first_rule(rules: Seq<PolicyRule>, subject: Seq<char>, action: &Action, i: int) -> int
    decreases rules.len() - i,
{
    if i < 0 || i >= rules.len() {
        rules.len() as int
    } else if rules[i].subject@ == subject && action_matches(&rules[i].action, action) {
        i
    } else {
        first_rule(rules, subject, action, i + 1)
    }
}

/// What `check` returns: the first matching rule's verdict, or denial.
pub open spec fn spec_check(rules: Seq<PolicyRule>, subject: Seq<char>, action: &Action) -> bool {
    let i = first_rule(rules, subject, action, 0);
    if i < rules.len() {
        rules[i].allow
    } else {
        false
    }
}

/// Whether the action is a send to this receiver, by characters.
pub open spec fn is_send_to(a: &Action, receiver: Seq<char>) -> bool {
    match a {
        Action::SendMessageTo(x) => x@ == receiver,
        _ => false,
    }
}

/// The first rule deciding a send from `subject` to `receiver`, or the
/// length when none matches.
pub open spec fn first_send_rule(
    rules: Seq<PolicyRule>,
    subject: Seq<char>,
    receiver: Seq<char>,
    i: int,
) -> int
    decreases rules.len() - i,
{
    if i < 0 || i >= rules.len() {
        rules.len() as int
    } else if rules[i].subject@ == subject && is_send_to(&rules[i].action, receiver) {
        i
    } else {
        first_send_rule(rules, subject, receiver, i + 1)
    }
}

/// What `check` returns for a send action, keyed by the receiver's
/// characters alone.
pub open spec fn spec_check_send(
    rules: Seq<PolicyRule>,
    subject: Seq<char>,
    receiver: Seq<char>,
) -> bool {
    let i = first_send_rule(rules, subject, receiver, 0);
    if i < rules.len() {
        rules[i].allow
    } else {
        false
    }
}

proof fn lemma_first_send_agrees(
    rules: Seq<PolicyRule>,
    subject: Seq<char>,
    a: &Action,
    receiver: Seq<char>,
    i: int,
)
    requires
        is_send_to(a, receiver),
    ensures
        first_rule(rules, subject, a, i) == first_send_rule(rules, subject, receiver, i),
    decreases rules.len() - i,
{
    if 0 <= i < rules.len() {
        lemma_first_send_agrees(rules, subject, a, receiver, i + 1);
    }
}

/// On a send action the generic first-match check agrees with the
/// receiver-keyed one.
pub proof fn lemma_check_send_agrees(
    rules: Seq<PolicyRule>,
    subject: Seq<char>,
    a: &Action,
    receiver: Seq<char>,
)
    requires
        is_send_to(a, receiver),
    ensures
        spec_check(rules, subject, a) == spec_check_send(rules, subject, receiver),
{
    lemma_first_send_agrees(rules, subject, a, receiver, 0);
}

/// An ordered rule list; the first match wins.
pub struct PolicyEngine {
    rules: Vec<PolicyRule>,
}

impl PolicyEngine {
    pub closed spec fn spec_rules(&self) -> Seq<PolicyRule> {
        self.rules@
    }

    pub fn new() -> (r: Self)
        ensures
            r.spec_rules() == Seq::<PolicyRule>::empty(),
    {
        PolicyEngine { rules: Vec::new() }
    }

    pub fn add_rule(&mut self, rule: PolicyRule)
        ensures
            final(self).spec_rules() == old(self).spec_rules().push(rule),
    {
        self.rules.push(rule);
    }

    /// The first rule whose subject and action both match decides; no match
    /// denies.
    pub fn check(&self, subject: &str, action: &Action) -> (r: bool)
        ensures
            r == spec_check(self.spec_rules(), subject@, action),
    {
        let n = self.rules.len();
        let mut i: usize = 0;
        while i < n
            invariant
                n == self.spec_rules().len(),
                i <= n,
                forall|j: int| 0 <= j < i ==> !((#[trigger] self.spec_rules()[j]).subject@
                    == subject@ && action_matches(&self.spec_rules()[j].action, action)),
            decreases n - i,
        {
            let rule = &self.rules[i];
            let subj_matches = {
                let so = subject.to_owned();
                rule.subject == so
            };
            if subj_matches && action_eq(&rule.action, action) {
                proof {
                    lemma_first_rule_skip(self.spec_rules(), subject@, action, 0, i as int);
                }
                return rule.allow;
            }
            i = i + 1;
        }
        proof {
            if n > 0 {
                lemma_first_rule_skip(self.spec_rules(), subject@, action, 0, n as int);
            }
        }
        false
    }
}

proof fn lemma_first_rule_skip(
    rules: Seq<PolicyRule>,
    subject: Seq<char>,
    action: &Action,
    a: int,
    b: int,
)
    requires
        0 <= a <= b <= rules.len(),
        forall|j: int| a <= j < b ==> !((#[trigger] rules[j]).subject@ == subject
            && action_matches(&rules[j].action, action)),
    ensures
        first_rule(rules, subject, action, a) == first_rule(rules, subject, action, b),
    decreases b - a,
{
    if a < b {
        lemma_first_rule_skip(rules, subject, action, a + 1, b);
    }
}

} // verus!
