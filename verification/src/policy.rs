//! Policy engine: subject → (allowed actions, capabilities) rules, plus the
//! user and group tables.
//!
//! Rule slot 0 is the default rule; evaluation scans from slot 1 and the
//! first rule whose subject matches decides. A removed rule leaves a
//! tombstone (a default-constructed rule) that `add_rule` reuses.

use vstd::prelude::*;
use vstd::pervasive::unreached;
use vstd::string::StringSliceAdditionalSpecFns;
use vstd::array::ArrayAdditionalExecFns;
use crate::db::{Database, ObjectHandle};

verus! {

/// Capability bitfield.
#[derive(Debug, Clone, Copy, PartialEq, Eq, Structural, Hash)]
pub struct Capability(pub u16);

impl Capability {
    pub const READ_FILESYSTEM: u16 = 0x01;
    pub const WRITE_LOG: u16 = 0x02;
    pub const SPAWN_TASK: u16 = 0x04;
    pub const NETWORK_ACCESS: u16 = 0x08;

    pub fn new() -> (r: Self)
        ensures
            r.0 == 0,
    {
        Capability(0)
    }

    /// All bits of `c` are set in `self`.
    pub fn contains(self, c: Self) -> (r: bool)
        ensures
            r == (self.0 & c.0 == c.0),
    {
        self.0 & c.0 == c.0
    }

    pub fn with(self, c: u16) -> (r: Self)
        ensures
            r.0 == self.0 | c,
    {
        Capability(self.0 | c)
    }
}

impl Default for Capability {
    fn default() -> (r: Self)
        ensures
            r.0 == 0,
    {
        Capability(0)
    }
}

/// Adding a set of bits always yields a value that contains them:
/// `bitfield.with(c).contains(c)` for any bits and any start value.
pub proof fn lemma_with_contains(bits: Capability, c: u16)
    ensures
        (bits.0 | c) & c == c,
{
    let b = bits.0;
    assert((b | c) & c == c) by (bit_vector);
}

/// Tagged action bitfield: the low byte is the action mask, bits 8 to 11
/// carry a tag (a device id, for future use).
#[derive(Debug, Clone, Copy, PartialEq, Eq, Structural, Hash)]
pub struct Action(pub u16);

impl Action {
    pub const START_TASK: u16 = 0x01;
    pub const ACCESS_DEVICE: u16 = 0x02;
    pub const WRITE_TO: u16 = 0x04;
    /// Mask of the tag bits.
    pub const ID: u16 = 0x0f00;
    pub const TAG_SHIFT: u16 = 8;

    /// All bits of `c` are set in `self`.
    pub fn contains(self, c: Self) -> (r: bool)
        ensures
            r == (self.0 & c.0 == c.0),
    {
        self.0 & c.0 == c.0
    }

    pub fn with(self, c: u16) -> (r: Self)
        ensures
            r.0 == self.0 | c,
    {
        Action(self.0 | c)
    }

    /// Stores `c` in the tag bits; only four tag bits survive the mask.
    pub fn set_tag(self, c: u16) -> (r: Self)
        ensures
            r.0 == (self.0 & !Action::ID) | ((c << Action::TAG_SHIFT) & Action::ID),
    {
        Action((self.0 & !Action::ID) | ((c << Action::TAG_SHIFT) & Action::ID))
    }

    pub fn get_tag(self) -> (r: u16)
        ensures
            r == (self.0 & Action::ID) >> Action::TAG_SHIFT,
    {
        (self.0 & Action::ID) >> Action::TAG_SHIFT
    }
}

impl Default for Action {
    fn default() -> (r: Self)
        ensures
            r.0 == 0,
    {
        Action(0)
    }
}

/// The tag round-trips through the mask: `set_tag(t).get_tag() == t & 0x0f`,
/// whatever the action held before.
pub proof fn lemma_set_get_tag(a: Action, t: u16)
    ensures
        (((a.0 & !Action::ID) | ((t << Action::TAG_SHIFT) & Action::ID)) & Action::ID)
            >> Action::TAG_SHIFT == t & 0x0f,
{
    let v = a.0;
    assert((((v & !0x0f00u16) | ((t << 8u16) & 0x0f00u16)) & 0x0f00u16) >> 8u16 == t
        & 0x0fu16) by (bit_vector);
}

/// Setting the tag does not disturb the action mask in the low byte.
pub proof fn lemma_set_tag_keeps_mask(a: Action, t: u16)
    ensures
        ((a.0 & !Action::ID) | ((t << Action::TAG_SHIFT) & Action::ID)) & 0xffu16 == a.0 & 0xffu16,
{
    let v = a.0;
    assert(((v & !0x0f00u16) | ((t << 8u16) & 0x0f00u16)) & 0xffu16 == v & 0xffu16)
        by (bit_vector);
}

#[derive(Default, Debug, Clone, Copy, PartialEq, Eq, Structural)]
pub struct PolicyRuleHandle(pub u16);

#[derive(Debug, Clone, Copy, PartialEq, Eq, Structural)]
pub struct PolicyRule {
    pub subject: ObjectHandle,
    pub allowed: Action,
    pub capabilities: Capability,
}

impl Default for PolicyRule {
    /// The tombstone: an unassigned subject with nothing allowed.
    fn default() -> (r: Self)
        ensures
            r == PolicyRule::tombstone(),
    {
        PolicyRule { subject: ObjectHandle::none(), allowed: Action(0), capabilities: Capability(0) }
    }
}

impl PolicyRule {
    /// The value a removed slot holds.
    pub open spec fn tombstone() -> PolicyRule {
        PolicyRule { subject: ObjectHandle::spec_none(), allowed: Action(0), capabilities: Capability(0) }
    }

    pub open spec fn is_tombstone(self) -> bool {
        self.subject == ObjectHandle::spec_none()
    }
}

/// A 512-bit placeholder for a password hash.
#[derive(Debug, Clone, Copy)]
pub struct PasswordHash {
    data: [u64; 8],
}

impl Default for PasswordHash {
    fn default() -> (r: Self)
        ensures
            forall|i: int| 0 <= i < 8 ==> r.spec_data()[i] == 0u64,
    {
        PasswordHash { data: [0u64; 8] }
    }
}

impl PasswordHash {
    pub closed spec fn spec_data(self) -> Seq<u64> {
        self.data@
    }
}

/// A named user; the name is NUL-padded to 16 bytes.
#[derive(Debug, Clone, Copy)]
pub struct User {
    name: [u8; 16],
    pass_hash: PasswordHash,
}

impl User {
    pub closed spec fn spec_name(self) -> Seq<u8> {
        self.name@
    }

    /// The name bytes up to the first NUL.
    pub fn get_name(&self) -> (r: Vec<u8>)
        ensures
            r@ == prefix_to_nul(self.spec_name()),
    {
        bytes_prefix_to_nul_arr16(&self.name)
    }
}

/// A named group; the name is NUL-padded to 16 bytes.
#[derive(Debug, Clone, Copy)]
pub struct Group {
    name: [u8; 16],
}

impl Group {
    pub closed spec fn spec_name(self) -> Seq<u8> {
        self.name@
    }

    /// The name bytes up to the first NUL.
    pub fn get_name(&self) -> (r: Vec<u8>)
        ensures
            r@ == prefix_to_nul(self.spec_name()),
    {
        bytes_prefix_to_nul_arr16(&self.name)
    }
}

/// Index of the first NUL byte, or the length if there is none.
pub open spec fn first_nul(s: Seq<u8>) -> int
    decreases s.len(),
{
    if s.len() == 0 {
        0
    } else if s[0] == 0u8 {
        0
    } else {
        1 + first_nul(s.skip(1))
    }
}

/// The bytes before the first NUL.
pub open spec fn prefix_to_nul(s: Seq<u8>) -> Seq<u8> {
    s.take(first_nul(s))
}

pub proof fn lemma_first_nul_bound(s: Seq<u8>)
    ensures
        0 <= first_nul(s) <= s.len(),
        forall|i: int| 0 <= i < first_nul(s) ==> s[i] != 0u8,
        first_nul(s) < s.len() ==> s[first_nul(s)] == 0u8,
    decreases s.len(),
{
    if s.len() > 0 && s[0] != 0u8 {
        lemma_first_nul_bound(s.skip(1));
        assert(forall|i: int| 0 <= i < s.skip(1).len() ==> s.skip(1)[i] == s[i + 1]);
        let f = first_nul(s);
        assert(f == 1 + first_nul(s.skip(1)));
        assert forall|i: int| 0 <= i < f implies s[i] != 0u8 by {
            if i > 0 {
                assert(s.skip(1)[i - 1] != 0u8);
            }
        }
        if f < s.len() {
            assert(s[f] == s.skip(1)[f - 1]);
        }
    }
}

fn bytes_prefix_to_nul_arr16(name: &[u8; 16]) -> (r: Vec<u8>)
    ensures
        r@ == prefix_to_nul(name@),
{
    let mut r: Vec<u8> = Vec::new();
    let mut i: usize = 0;
    proof {
        lemma_first_nul_bound(name@);
    }
    while i < 16
        invariant
            i <= 16,
            name@.len() == 16,
            i <= first_nul(name@),
            r@ == name@.take(i as int),
            0 <= first_nul(name@) <= 16,
            forall|k: int| 0 <= k < first_nul(name@) ==> name@[k] != 0u8,
            first_nul(name@) < 16 ==> name@[first_nul(name@)] == 0u8,
        decreases 16 - i,
    {
        let b = name[i];
        if b == 0 {
            proof {
                assert(first_nul(name@) <= i);
            }
            return r;
        }
        r.push(b);
        proof {
            assert(r@ =~= name@.take(i + 1));
            assert(first_nul(name@) != i);
        }
        i = i + 1;
    }
    proof {
        assert(first_nul(name@) == 16);
        assert(r@ =~= prefix_to_nul(name@));
    }
    r
}

/// The slot the next `add_rule` writes: the first tombstone at or after slot
/// 1, or the length if there is none.
pub open spec fn first_tombstone(rules: Seq<PolicyRule>, i: int) -> int
    decreases rules.len() - i,
{
    if i < 1 || i >= rules.len() {
        rules.len() as int
    } else if rules[i].is_tombstone() {
        i
    } else {
        first_tombstone(rules, i + 1)
    }
}

/// The rule that decides for `subject`: the first match at or after slot 1,
/// or the length if none matches.
pub open spec fn first_match(rules: Seq<PolicyRule>, subject: ObjectHandle, i: int) -> int
    decreases rules.len() - i,
{
    if i < 1 || i >= rules.len() {
        rules.len() as int
    } else if rules[i].subject == subject {
        i
    } else {
        first_match(rules, subject, i + 1)
    }
}

/// What `check_action` returns.
pub open spec fn spec_check_action(rules: Seq<PolicyRule>, subject: ObjectHandle, what: Action) -> bool {
    let i = first_match(rules, subject, 1);
    if i < rules.len() {
        rules[i].allowed.0 & what.0 == what.0
    } else {
        false
    }
}

/// What `check_capability` returns.
pub open spec fn spec_check_capability(
    rules: Seq<PolicyRule>,
    subject: ObjectHandle,
    what: Capability,
) -> bool {
    let i = first_match(rules, subject, 1);
    if i < rules.len() {
        rules[i].capabilities.0 & what.0 == what.0
    } else {
        false
    }
}

/// The decision depends on nothing but the first rule whose subject matches:
/// two rule tables whose first matches agree decide every action alike.
pub proof fn lemma_check_action_first_match(
    r1: Seq<PolicyRule>,
    r2: Seq<PolicyRule>,
    subject: ObjectHandle,
    what: Action,
)
    requires
        (first_match(r1, subject, 1) < r1.len()) == (first_match(r2, subject, 1) < r2.len()),
        first_match(r1, subject, 1) < r1.len() ==> r1[first_match(r1, subject, 1)] == r2[first_match(
            r2,
            subject,
            1,
        )],
    ensures
        spec_check_action(r1, subject, what) == spec_check_action(r2, subject, what),
{
}

/// Scanning past non-matching slots does not change the first match.
proof fn lemma_first_match_skip(rules: Seq<PolicyRule>, subject: ObjectHandle, a: int, b: int)
    requires
        1 <= a <= b <= rules.len(),
        forall|j: int| a <= j < b ==> rules[j].subject != subject,
    ensures
        first_match(rules, subject, a) == first_match(rules, subject, b),
    decreases b - a,
{
    if a < b {
        lemma_first_match_skip(rules, subject, a + 1, b);
    }
}

/// Scanning past non-tombstones does not change the first tombstone.
proof fn lemma_first_tombstone_skip(rules: Seq<PolicyRule>, a: int, b: int)
    requires
        1 <= a <= b <= rules.len(),
        forall|j: int| a <= j < b ==> !rules[j].is_tombstone(),
    ensures
        first_tombstone(rules, a) == first_tombstone(rules, b),
    decreases b - a,
{
    if a < b {
        lemma_first_tombstone_skip(rules, a + 1, b);
    }
}

/// The live (non-tombstone) rules among slots `[1, i)`, in order.
pub open spec fn live_rules_upto(rules: Seq<PolicyRule>, i: int) -> Seq<PolicyRule>
    decreases i,
{
    if i <= 1 {
        Seq::empty()
    } else if !rules[i - 1].is_tombstone() {
        live_rules_upto(rules, i - 1).push(rules[i - 1])
    } else {
        live_rules_upto(rules, i - 1)
    }
}

/// The policy engine (zero sized); all state lives in the database.
pub struct Manager;

impl Manager {
    /// Creates the default user and group, both named `admin`.
    pub fn init(db: &mut Database)
        requires
            old(db).users@.len() < 64,
            old(db).groups@.len() < 64,
        ensures
            final(db).users@.len() == old(db).users@.len() + 1,
            final(db).groups@.len() == old(db).groups@.len() + 1,
            prefix_to_nul(final(db).users@[final(db).users@.len() - 1].spec_name())
                == "admin".spec_bytes(),
            prefix_to_nul(final(db).groups@[final(db).groups@.len() - 1].spec_name())
                == "admin".spec_bytes(),
            final(db).workers@ == old(db).workers@,
            final(db).policy_rule@ == old(db).policy_rule@,
            final(db).vfs_nodes@ == old(db).vfs_nodes@,
            final(db).vfs_providers@ == old(db).vfs_providers@,
            final(db).aspaces@ == old(db).aspaces@,
            final(db).phys == old(db).phys,
            final(db).page_tables@ == old(db).page_tables@,
            final(db).kernel_start == old(db).kernel_start,
            final(db).kernel_end == old(db).kernel_end,
            forall|i: int| 0 <= i < old(db).users@.len() ==> final(db).users@[i] == old(
                db,
            ).users@[i],
            forall|i: int| 0 <= i < old(db).groups@.len() ==> final(db).groups@[i] == old(
                db,
            ).groups@[i],
    {
        proof {
            reveal_strlit("admin");
            vstd::string::is_ascii_spec_bytes("admin");
            assert(vstd::string::is_ascii("admin"));
            assert("admin".spec_bytes().len() == 5);
            assert(!"admin".spec_bytes().contains(0u8)) by {
                assert(forall|i: int| 0 <= i < 5 ==> "admin".spec_bytes()[i] != 0u8);
            }
        }
        Self::new_user(db, "admin");
        Self::new_group(db, "admin");
    }

    /// Appends a user whose name is `name`, NUL-padded to 16 bytes. A name
    /// longer than 16 bytes is a kernel fault, so it is excluded.
    pub fn new_user(db: &mut Database, name: &str) -> (r: ObjectHandle)
        requires
            old(db).users@.len() < 64,
            name.spec_bytes().len() <= 16,
            !name.spec_bytes().contains(0u8),
        ensures
            final(db).users@.len() == old(db).users@.len() + 1,
            forall|i: int| 0 <= i < old(db).users@.len() ==> final(db).users@[i] == old(
                db,
            ).users@[i],
            prefix_to_nul(final(db).users@[old(db).users@.len() as int].spec_name())
                == name.spec_bytes(),
            r.spec_id() == old(db).users@.len(),
            r.spec_type() == ObjectHandle::USER,
            final(db).workers@ == old(db).workers@,
            final(db).policy_rule@ == old(db).policy_rule@,
            final(db).vfs_nodes@ == old(db).vfs_nodes@,
            final(db).vfs_providers@ == old(db).vfs_providers@,
            final(db).aspaces@ == old(db).aspaces@,
            final(db).groups@ == old(db).groups@,
            final(db).phys == old(db).phys,
            final(db).page_tables@ == old(db).page_tables@,
            final(db).kernel_start == old(db).kernel_start,
            final(db).kernel_end == old(db).kernel_end,
    {
        let bytes = pad_name_16(name);
        let user = User { name: bytes, pass_hash: PasswordHash::default() };
        proof {
            lemma_padded_prefix(name.spec_bytes(), bytes@);
        }
        let id = db.users.len() as u16;
        db.users.push(user);
        ObjectHandle::new::<5>(id)
    }

    /// Appends a group; same shape as `new_user`.
    pub fn new_group(db: &mut Database, name: &str) -> (r: ObjectHandle)
        requires
            old(db).groups@.len() < 64,
            name.spec_bytes().len() <= 16,
            !name.spec_bytes().contains(0u8),
        ensures
            final(db).groups@.len() == old(db).groups@.len() + 1,
            forall|i: int| 0 <= i < old(db).groups@.len() ==> final(db).groups@[i] == old(
                db,
            ).groups@[i],
            prefix_to_nul(final(db).groups@[old(db).groups@.len() as int].spec_name())
                == name.spec_bytes(),
            r.spec_id() == old(db).groups@.len(),
            r.spec_type() == ObjectHandle::GROUP,
            final(db).workers@ == old(db).workers@,
            final(db).policy_rule@ == old(db).policy_rule@,
            final(db).vfs_nodes@ == old(db).vfs_nodes@,
            final(db).vfs_providers@ == old(db).vfs_providers@,
            final(db).aspaces@ == old(db).aspaces@,
            final(db).users@ == old(db).users@,
            final(db).phys == old(db).phys,
            final(db).page_tables@ == old(db).page_tables@,
            final(db).kernel_start == old(db).kernel_start,
            final(db).kernel_end == old(db).kernel_end,
    {
        let bytes = pad_name_16(name);
        let group = Group { name: bytes };
        proof {
            lemma_padded_prefix(name.spec_bytes(), bytes@);
        }
        let id = db.groups.len() as u16;
        db.groups.push(group);
        ObjectHandle::new::<6>(id)
    }

    /// Writes the rule into the first tombstone slot after the default rule,
    /// or appends it. Appending past the table's capacity is a kernel fault.
    pub fn add_rule(db: &mut Database, rule: PolicyRule) -> (r: PolicyRuleHandle)
        requires
            old(db).policy_rule.wf(),
            first_tombstone(old(db).policy_rule@, 1) < old(db).policy_rule@.len() || old(
                db,
            ).policy_rule@.len() < 128,
        ensures
            r.0 as int == first_tombstone(old(db).policy_rule@, 1),
            (r.0 as int) < old(db).policy_rule@.len() ==> final(db).policy_rule@ == old(
                db,
            ).policy_rule@.update(r.0 as int, rule),
            r.0 as int == old(db).policy_rule@.len() ==> final(db).policy_rule@ == old(
                db,
            ).policy_rule@.push(rule),
            final(db).policy_rule@[r.0 as int] == rule,
            final(db).workers@ == old(db).workers@,
            final(db).vfs_nodes@ == old(db).vfs_nodes@,
            final(db).vfs_providers@ == old(db).vfs_providers@,
            final(db).aspaces@ == old(db).aspaces@,
            final(db).users@ == old(db).users@,
            final(db).groups@ == old(db).groups@,
            final(db).phys == old(db).phys,
            final(db).page_tables@ == old(db).page_tables@,
            final(db).kernel_start == old(db).kernel_start,
            final(db).kernel_end == old(db).kernel_end,
    {
        let ghost rules = db.policy_rule@;
        let n = db.policy_rule.len();
        let mut slot: usize = n;
        let mut i: usize = 1;
        while i < n && slot == n
            invariant
                rules == db.policy_rule@,
                n == rules.len(),
                1 <= i,
                i <= n || (i == 1 && n == 0),
                slot == n || (slot < n && first_tombstone(rules, 1) == slot),
                slot == n ==> forall|j: int| 1 <= j < i ==> !rules[j].is_tombstone(),
            decreases n - i + if slot == n {
                1int
            } else {
                0int
            },
        {
            let is_tomb = {
                let r = match db.policy_rule.get(i) {
                    Some(r) => r,
                    None => {
                        proof {
                            assert(false);
                        }
                        return PolicyRuleHandle(0);
                    },
                };
                r.subject == ObjectHandle::none()
            };
            if is_tomb {
                proof {
                    assert(rules[i as int].is_tombstone());
                    lemma_first_tombstone_skip(rules, 1, i as int);
                }
                slot = i;
            } else {
                proof {
                    assert(!rules[i as int].is_tombstone());
                }
                i = i + 1;
            }
        }
        if slot < n {
            db.policy_rule.set(slot, rule);
            return PolicyRuleHandle(slot as u16);
        }
        proof {
            if n > 0 {
                lemma_first_tombstone_skip(rules, 1, n as int);
            }
            assert(first_tombstone(rules, 1) == rules.len());
        }
        db.policy_rule.push(rule);
        PolicyRuleHandle(n as u16)
    }

    /// Overwrites the slot with a tombstone; an out-of-range handle is
    /// ignored, exactly as in the lookup it mirrors.
    pub fn remove_rule(db: &mut Database, handle: PolicyRuleHandle)
        ensures
            (handle.0 as int) < old(db).policy_rule@.len() ==> final(db).policy_rule@ == old(
                db,
            ).policy_rule@.update(handle.0 as int, PolicyRule::tombstone()),
            (handle.0 as int) >= old(db).policy_rule@.len() ==> final(db).policy_rule@ == old(
                db,
            ).policy_rule@,
            final(db).workers@ == old(db).workers@,
            final(db).vfs_nodes@ == old(db).vfs_nodes@,
            final(db).vfs_providers@ == old(db).vfs_providers@,
            final(db).aspaces@ == old(db).aspaces@,
            final(db).users@ == old(db).users@,
            final(db).groups@ == old(db).groups@,
            final(db).phys == old(db).phys,
            final(db).page_tables@ == old(db).page_tables@,
            final(db).kernel_start == old(db).kernel_start,
            final(db).kernel_end == old(db).kernel_end,
    {
        let idx = handle.0 as usize;
        if idx < db.policy_rule.len() {
            db.policy_rule.set(idx, PolicyRule::default());
        }
    }

    /// The first rule (from slot 1) whose subject matches decides; with no
    /// match the action is denied.
    pub fn check_action(db: &Database, subject: ObjectHandle, what: Action) -> (r: bool)
        ensures
            r == spec_check_action(db.policy_rule@, subject, what),
    {
        let ghost rules = db.policy_rule@;
        let n = db.policy_rule.len();
        let mut i: usize = 1;
        while i < n
            invariant
                rules == db.policy_rule@,
                n == rules.len(),
                1 <= i,
                i <= n || (i == 1 && n == 0),
                forall|j: int| 1 <= j < i ==> rules[j].subject != subject,
            decreases n - i,
        {
            let r = match db.policy_rule.get(i) {
                Some(r) => r,
                None => {
                    proof {
                        assert(false);
                    }
                    return false;
                },
            };
            if r.subject == subject {
                proof {
                    lemma_first_match_skip(rules, subject, 1, i as int);
                }
                return r.allowed.contains(what);
            }
            proof {
                assert(rules[i as int].subject != subject);
            }
            i = i + 1;
        }
        proof {
            if n > 0 {
                lemma_first_match_skip(rules, subject, 1, n as int);
            }
            assert(first_match(rules, subject, 1) == rules.len());
        }
        false
    }

    /// Same shape as `check_action`, over the capability bits.
    pub fn check_capability(db: &Database, subject: ObjectHandle, what: Capability) -> (r: bool)
        ensures
            r == spec_check_capability(db.policy_rule@, subject, what),
    {
        let ghost rules = db.policy_rule@;
        let n = db.policy_rule.len();
        let mut i: usize = 1;
        while i < n
            invariant
                rules == db.policy_rule@,
                n == rules.len(),
                1 <= i,
                i <= n || (i == 1 && n == 0),
                forall|j: int| 1 <= j < i ==> rules[j].subject != subject,
            decreases n - i,
        {
            let r = match db.policy_rule.get(i) {
                Some(r) => r,
                None => {
                    proof {
                        assert(false);
                    }
                    return false;
                },
            };
            if r.subject == subject {
                proof {
                    lemma_first_match_skip(rules, subject, 1, i as int);
                }
                return r.capabilities.contains(what);
            }
            proof {
                assert(rules[i as int].subject != subject);
            }
            i = i + 1;
        }
        proof {
            if n > 0 {
                lemma_first_match_skip(rules, subject, 1, n as int);
            }
            assert(first_match(rules, subject, 1) == rules.len());
        }
        false
    }

    /// The live rules, skipping the default slot and all tombstones.
    pub fn for_each_policy_rule(db: &Database) -> (r: Vec<PolicyRule>)
        ensures
            r@ == live_rules_upto(db.policy_rule@, db.policy_rule@.len() as int),
    {
        let ghost rules = db.policy_rule@;
        let n = db.policy_rule.len();
        let mut r: Vec<PolicyRule> = Vec::new();
        let mut i: usize = 1;
        while i < n
            invariant
                rules == db.policy_rule@,
                n == rules.len(),
                1 <= i,
                i <= n || (i == 1 && n == 0),
                r@ == live_rules_upto(rules, i as int),
            decreases n - i,
        {
            let rule = match db.policy_rule.get(i) {
                Some(rule) => rule,
                None => {
                    proof {
                        assert(false);
                    }
                    return r;
                },
            };
            if !(rule.subject == ObjectHandle::none()) {
                r.push(*rule);
            }
            i = i + 1;
        }
        proof {
            if n == 0 {
                assert(r@ =~= live_rules_upto(rules, 0));
            }
        }
        r
    }

    /// The user behind a handle; an unknown id is a kernel fault.
    pub fn get_user<'a>(db: &'a Database, id: ObjectHandle) -> (r: &'a User)
        requires
            id.spec_id() < db.users@.len(),
        ensures
            *r == db.users@[id.spec_id() as int],
    {
        match db.users.get(id.get_id() as usize) {
            Some(u) => u,
            None => {
                proof {
                    assert(false);
                }
                unreached()
            },
        }
    }

    /// Mutable access to a user; an unknown id is a kernel fault.
    pub fn get_user_mut<'a>(db: &'a mut Database, id: ObjectHandle) -> (r: &'a mut User)
        requires
            id.spec_id() < old(db).users@.len(),
        ensures
            *r == old(db).users@[id.spec_id() as int],
            final(db).users@ == old(db).users@.update(id.spec_id() as int, *final(r)),
            final(db).workers@ == old(db).workers@,
            final(db).policy_rule@ == old(db).policy_rule@,
            final(db).vfs_nodes@ == old(db).vfs_nodes@,
            final(db).vfs_providers@ == old(db).vfs_providers@,
            final(db).aspaces@ == old(db).aspaces@,
            final(db).groups@ == old(db).groups@,
            final(db).phys == old(db).phys,
            final(db).page_tables@ == old(db).page_tables@,
            final(db).kernel_start == old(db).kernel_start,
            final(db).kernel_end == old(db).kernel_end,
    {
        db.users.at_mut(id.get_id() as usize)
    }

    /// Every user, in id order.
    pub fn for_each_user(db: &Database) -> (r: Vec<User>)
        ensures
            r@ == db.users@,
    {
        let n = db.users.len();
        let mut r: Vec<User> = Vec::new();
        let mut i: usize = 0;
        while i < n
            invariant
                n == db.users@.len(),
                i <= n,
                r@ == db.users@.take(i as int),
            decreases n - i,
        {
            match db.users.get(i) {
                Some(u) => r.push(*u),
                None => {
                    proof {
                        assert(false);
                    }
                },
            }
            proof {
                assert(r@ =~= db.users@.take(i as int + 1));
            }
            i = i + 1;
        }
        proof {
            assert(r@ =~= db.users@);
        }
        r
    }

    /// Every group, in id order.
    pub fn for_each_group(db: &Database) -> (r: Vec<Group>)
        ensures
            r@ == db.groups@,
    {
        let n = db.groups.len();
        let mut r: Vec<Group> = Vec::new();
        let mut i: usize = 0;
        while i < n
            invariant
                n == db.groups@.len(),
                i <= n,
                r@ == db.groups@.take(i as int),
            decreases n - i,
        {
            match db.groups.get(i) {
                Some(g) => r.push(*g),
                None => {
                    proof {
                        assert(false);
                    }
                },
            }
            proof {
                assert(r@ =~= db.groups@.take(i as int + 1));
            }
            i = i + 1;
        }
        proof {
            assert(r@ =~= db.groups@);
        }
        r
    }
}

/// Copies up to 16 name bytes into a NUL-padded array.
fn pad_name_16(name: &str) -> (r: [u8; 16])
    requires
        name.spec_bytes().len() <= 16,
    ensures
        r@.len() == 16,
        forall|i: int| 0 <= i < name.spec_bytes().len() ==> r@[i] == name.spec_bytes()[i],
        forall|i: int| name.spec_bytes().len() <= i < 16 ==> r@[i] == 0u8,
{
    let b = name.as_bytes();
    let mut r: [u8; 16] = [0u8; 16];
    let mut i: usize = 0;
    while i < b.len()
        invariant
            b@ == name.spec_bytes(),
            b@.len() <= 16,
            i <= b@.len(),
            r@.len() == 16,
            forall|k: int| 0 <= k < i ==> r@[k] == b@[k],
            forall|k: int| i <= k < 16 ==> r@[k] == 0u8,
        decreases b.len() - i,
    {
        r[i] = b[i];
        i = i + 1;
    }
    r
}

/// A NUL-free name padded with NULs reads back as itself.
pub proof fn lemma_padded_prefix(name: Seq<u8>, padded: Seq<u8>)
    requires
        !name.contains(0u8),
        name.len() <= padded.len(),
        forall|i: int| 0 <= i < name.len() ==> padded[i] == name[i],
        forall|i: int| name.len() <= i < padded.len() ==> padded[i] == 0u8,
    ensures
        prefix_to_nul(padded) == name,
{
    lemma_first_nul_bound(padded);
    let f = first_nul(padded);
    if f < name.len() {
        assert(padded[f] == 0u8);
        assert(name[f] == 0u8);
        assert(name.contains(0u8));
    }
    if f > name.len() {
        if name.len() < padded.len() {
            assert(padded[name.len() as int] == 0u8);
        }
    }
    assert(f == name.len());
    assert(prefix_to_nul(padded) =~= name);
}

} // verus!
