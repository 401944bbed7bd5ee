//! Virtual file system: a flat tree of named nodes with pluggable providers.
//!
//! Node 0 is the root; children are found by a linear scan on the parent
//! handle. A node without a provider of its own carries provider 0, whose
//! operations fail with `Error::Unknown`.

use vstd::prelude::*;
use vstd::pervasive::unreached;
use vstd::string::StringSliceAdditionalSpecFns;
use vstd::array::ArrayAdditionalExecFns;
use crate::db::{Database, ObjectHandle};
use crate::policy;
use crate::policy::{first_nul, prefix_to_nul};

verus! {

/// What a provider operation can fail with.
#[derive(Debug, Clone, Copy, PartialEq, Eq, Structural)]
pub enum Error {
    /// No provider behind the node, or an unsupported operation.
    Unknown,
    /// The policy engine denied the actor.
    Policy,
    /// Reserved for future providers.
    Custom(u32),
}

impl Default for Error {
    fn default() -> (r: Self)
        ensures
            r == Error::Unknown,
    {
        Error::Unknown
    }
}

#[derive(Default, Debug, Clone, Copy, PartialEq, Eq, Structural)]
pub struct ProviderHandle(pub u16);

/// The read/write behaviours a node can be wired to. The kernel registers
/// exactly these at init; their side effects (serial output) are the shim's.
#[derive(Debug, Clone, Copy, PartialEq, Eq, Structural)]
pub enum Provider {
    /// Fails every operation with `Unknown`.
    Fallback,
    /// Appends to the kernel log if the actor holds `WRITE_LOG`.
    Log,
}

#[derive(Default, Debug, Clone, Copy, PartialEq, Eq, Structural)]
pub struct NodeHandle(pub u16);

impl NodeHandle {
    pub fn is_root(self) -> (r: bool)
        ensures
            r == (self.0 == 0),
    {
        self.0 == 0
    }
}

/// A named tree node; the name is NUL-padded to 24 bytes.
#[derive(Debug, Clone, Copy)]
pub struct Node {
    name: [u8; 24],
    parent: NodeHandle,
    provider: ProviderHandle,
}

impl Node {
    pub closed spec fn spec_name(self) -> Seq<u8> {
        self.name@
    }

    pub closed spec fn spec_parent(self) -> NodeHandle {
        self.parent
    }

    pub closed spec fn spec_provider(self) -> ProviderHandle {
        self.provider
    }

    /// The name bytes up to the first NUL.
    pub fn get_name(&self) -> (r: Vec<u8>)
        ensures
            r@ == prefix_to_nul(self.spec_name()),
    {
        let mut r: Vec<u8> = Vec::new();
        let mut i: usize = 0;
        proof {
            policy::lemma_first_nul_bound(self.spec_name());
        }
        while i < 24
            invariant
                i <= 24,
                self.spec_name().len() == 24,
                i <= first_nul(self.spec_name()),
                r@ == self.spec_name().take(i as int),
                0 <= first_nul(self.spec_name()) <= 24,
                forall|k: int| 0 <= k < first_nul(self.spec_name()) ==> self.spec_name()[k] != 0u8,
                first_nul(self.spec_name()) < 24 ==> self.spec_name()[first_nul(self.spec_name())]
                    == 0u8,
            decreases 24 - i,
        {
            let b = self.name[i];
            if b == 0 {
                proof {
                    assert(first_nul(self.spec_name()) <= i);
                }
                return r;
            }
            r.push(b);
            proof {
                assert(r@ =~= self.spec_name().take(i + 1));
                assert(first_nul(self.spec_name()) != i);
            }
            i = i + 1;
        }
        proof {
            assert(first_nul(self.spec_name()) == 24);
            assert(r@ =~= prefix_to_nul(self.spec_name()));
        }
        r
    }

    pub fn get_parent(&self) -> (r: &NodeHandle)
        ensures
            *r == self.spec_parent(),
    {
        &self.parent
    }

    pub fn get_provider(&self) -> (r: &ProviderHandle)
        ensures
            *r == self.spec_provider(),
    {
        &self.provider
    }
}

/// The first child of `parent` named exactly `name` at or after slot `i`, or
/// the length when none matches.
pub open spec fn first_child_named(
    nodes: Seq<Node>,
    parent: NodeHandle,
    name: Seq<u8>,
    i: int,
) -> int
    decreases nodes.len() - i,
{
    if i < 1 || i >= nodes.len() {
        nodes.len() as int
    } else if nodes[i].spec_parent() == parent && prefix_to_nul(nodes[i].spec_name()) == name {
        i
    } else {
        first_child_named(nodes, parent, name, i + 1)
    }
}

/// The children of `parent` among slots `[1, i)`, in slot order.
pub open spec fn children_upto(nodes: Seq<Node>, parent: NodeHandle, i: int) -> Seq<NodeHandle>
    decreases i,
{
    if i <= 1 {
        Seq::empty()
    } else if nodes[i - 1].spec_parent() == parent {
        children_upto(nodes, parent, i - 1).push(NodeHandle((i - 1) as u16))
    } else {
        children_upto(nodes, parent, i - 1)
    }
}

proof fn lemma_first_child_skip(nodes: Seq<Node>, parent: NodeHandle, name: Seq<u8>, a: int, b: int)
    requires
        1 <= a <= b <= nodes.len(),
        forall|j: int| a <= j < b ==> !((#[trigger] nodes[j]).spec_parent() == parent
            && prefix_to_nul(nodes[j].spec_name()) == name),
    ensures
        first_child_named(nodes, parent, name, a) == first_child_named(nodes, parent, name, b),
    decreases b - a,
{
    if a < b {
        lemma_first_child_skip(nodes, parent, name, a + 1, b);
    }
}

/// The manager (zero sized); nodes and providers live in the database.
pub struct Manager;

impl Manager {
    /// Registers the two built-in providers and populates the directory
    /// skeleton, with the kernel log file wired to the log provider.
    pub fn init(db: &mut Database)
        requires
            old(db).vfs_nodes@.len() == 0,
            old(db).vfs_providers@.len() == 0,
        ensures
            final(db).vfs_providers@ == seq![Provider::Fallback, Provider::Log],
            final(db).vfs_nodes@.len() == 23,
            forall|i: int| 0 <= i < 23 && i != 11
                ==> (#[trigger] final(db).vfs_nodes@[i]).spec_provider() == ProviderHandle(0u16),
            final(db).vfs_nodes@[11].spec_provider() == ProviderHandle(1u16),
            final(db).vfs_nodes@[0].spec_parent() == NodeHandle(0u16),
            prefix_to_nul(final(db).vfs_nodes@[0].spec_name()) == Seq::<u8>::empty(),
            final(db).vfs_nodes@[1].spec_parent() == NodeHandle(0u16),
            prefix_to_nul(final(db).vfs_nodes@[1].spec_name()) == "binary".spec_bytes(),
            final(db).vfs_nodes@[2].spec_parent() == NodeHandle(0u16),
            prefix_to_nul(final(db).vfs_nodes@[2].spec_name()) == "boot".spec_bytes(),
            final(db).vfs_nodes@[3].spec_parent() == NodeHandle(2u16),
            prefix_to_nul(final(db).vfs_nodes@[3].spec_name()) == "x86_64".spec_bytes(),
            final(db).vfs_nodes@[4].spec_parent() == NodeHandle(0u16),
            prefix_to_nul(final(db).vfs_nodes@[4].spec_name()) == "devices".spec_bytes(),
            final(db).vfs_nodes@[5].spec_parent() == NodeHandle(0u16),
            prefix_to_nul(final(db).vfs_nodes@[5].spec_name()) == "mount".spec_bytes(),
            final(db).vfs_nodes@[6].spec_parent() == NodeHandle(0u16),
            prefix_to_nul(final(db).vfs_nodes@[6].spec_name()) == "mutable".spec_bytes(),
            final(db).vfs_nodes@[7].spec_parent() == NodeHandle(6u16),
            prefix_to_nul(final(db).vfs_nodes@[7].spec_name()) == "spool".spec_bytes(),
            final(db).vfs_nodes@[8].spec_parent() == NodeHandle(6u16),
            prefix_to_nul(final(db).vfs_nodes@[8].spec_name()) == "cache".spec_bytes(),
            final(db).vfs_nodes@[9].spec_parent() == NodeHandle(6u16),
            prefix_to_nul(final(db).vfs_nodes@[9].spec_name()) == "runtime".spec_bytes(),
            final(db).vfs_nodes@[10].spec_parent() == NodeHandle(6u16),
            prefix_to_nul(final(db).vfs_nodes@[10].spec_name()) == "logs".spec_bytes(),
            final(db).vfs_nodes@[11].spec_parent() == NodeHandle(10u16),
            prefix_to_nul(final(db).vfs_nodes@[11].spec_name()) == "radian_core.log".spec_bytes(),
            final(db).vfs_nodes@[12].spec_parent() == NodeHandle(0u16),
            prefix_to_nul(final(db).vfs_nodes@[12].spec_name()) == "system".spec_bytes(),
            final(db).vfs_nodes@[13].spec_parent() == NodeHandle(12u16),
            prefix_to_nul(final(db).vfs_nodes@[13].spec_name()) == "include".spec_bytes(),
            final(db).vfs_nodes@[14].spec_parent() == NodeHandle(12u16),
            prefix_to_nul(final(db).vfs_nodes@[14].spec_name()) == "lib".spec_bytes(),
            final(db).vfs_nodes@[15].spec_parent() == NodeHandle(12u16),
            prefix_to_nul(final(db).vfs_nodes@[15].spec_name()) == "opt".spec_bytes(),
            final(db).vfs_nodes@[16].spec_parent() == NodeHandle(12u16),
            prefix_to_nul(final(db).vfs_nodes@[16].spec_name()) == "run".spec_bytes(),
            final(db).vfs_nodes@[17].spec_parent() == NodeHandle(0u16),
            prefix_to_nul(final(db).vfs_nodes@[17].spec_name()) == "temp".spec_bytes(),
            final(db).vfs_nodes@[18].spec_parent() == NodeHandle(0u16),
            prefix_to_nul(final(db).vfs_nodes@[18].spec_name()) == "user".spec_bytes(),
            final(db).vfs_nodes@[19].spec_parent() == NodeHandle(18u16),
            prefix_to_nul(final(db).vfs_nodes@[19].spec_name()) == "home".spec_bytes(),
            final(db).vfs_nodes@[20].spec_parent() == NodeHandle(18u16),
            prefix_to_nul(final(db).vfs_nodes@[20].spec_name()) == "binary".spec_bytes(),
            final(db).vfs_nodes@[21].spec_parent() == NodeHandle(0u16),
            prefix_to_nul(final(db).vfs_nodes@[21].spec_name()) == "misc".spec_bytes(),
            final(db).vfs_nodes@[22].spec_parent() == NodeHandle(0u16),
            prefix_to_nul(final(db).vfs_nodes@[22].spec_name()) == "opt".spec_bytes(),
            final(db).workers@ == old(db).workers@,
            final(db).policy_rule@ == old(db).policy_rule@,
            final(db).aspaces@ == old(db).aspaces@,
            final(db).users@ == old(db).users@,
            final(db).groups@ == old(db).groups@,
            final(db).phys == old(db).phys,
            final(db).page_tables@ == old(db).page_tables@,
            final(db).kernel_start == old(db).kernel_start,
            final(db).kernel_end == old(db).kernel_end,
    {
        let root_handle = NodeHandle(0);
        Self::new_node(db, "", root_handle);  // the root; never deleted
        Self::new_provider(db, Provider::Fallback);
        let log_provider = Self::new_provider(db, Provider::Log);

        Self::new_node(db, "binary", root_handle);
        let boot_dir = Self::new_node(db, "boot", root_handle);
        Self::new_node(db, "x86_64", boot_dir);

        Self::new_node(db, "devices", root_handle);
        Self::new_node(db, "mount", root_handle);

        let mutable_dir = Self::new_node(db, "mutable", root_handle);
        Self::new_node(db, "spool", mutable_dir);
        Self::new_node(db, "cache", mutable_dir);
        Self::new_node(db, "runtime", mutable_dir);
        let mutable_logs_dir = Self::new_node(db, "logs", mutable_dir);
        Self::new_node_with_provider(db, "radian_core.log", mutable_logs_dir, log_provider);

        let system_dir = Self::new_node(db, "system", root_handle);
        Self::new_node(db, "include", system_dir);
        Self::new_node(db, "lib", system_dir);
        Self::new_node(db, "opt", system_dir);
        Self::new_node(db, "run", system_dir);

        Self::new_node(db, "temp", root_handle);

        let user_dir = Self::new_node(db, "user", root_handle);
        Self::new_node(db, "home", user_dir);
        Self::new_node(db, "binary", user_dir);

        Self::new_node(db, "misc", root_handle);
        Self::new_node(db, "opt", root_handle);
        proof {
            reveal_strlit("");
            reveal_strlit("binary");
            reveal_strlit("boot");
            reveal_strlit("x86_64");
            reveal_strlit("devices");
            reveal_strlit("mount");
            reveal_strlit("mutable");
            reveal_strlit("spool");
            reveal_strlit("cache");
            reveal_strlit("runtime");
            reveal_strlit("logs");
            reveal_strlit("radian_core.log");
            reveal_strlit("system");
            reveal_strlit("include");
            reveal_strlit("lib");
            reveal_strlit("opt");
            reveal_strlit("run");
            reveal_strlit("temp");
            reveal_strlit("user");
            reveal_strlit("home");
            reveal_strlit("misc");
            vstd::string::is_ascii_spec_bytes("");
            vstd::string::is_ascii_spec_bytes("binary");
            vstd::string::is_ascii_spec_bytes("boot");
            vstd::string::is_ascii_spec_bytes("x86_64");
            vstd::string::is_ascii_spec_bytes("devices");
            vstd::string::is_ascii_spec_bytes("mount");
            vstd::string::is_ascii_spec_bytes("mutable");
            vstd::string::is_ascii_spec_bytes("spool");
            vstd::string::is_ascii_spec_bytes("cache");
            vstd::string::is_ascii_spec_bytes("runtime");
            vstd::string::is_ascii_spec_bytes("logs");
            vstd::string::is_ascii_spec_bytes("radian_core.log");
            vstd::string::is_ascii_spec_bytes("system");
            vstd::string::is_ascii_spec_bytes("include");
            vstd::string::is_ascii_spec_bytes("lib");
            vstd::string::is_ascii_spec_bytes("opt");
            vstd::string::is_ascii_spec_bytes("run");
            vstd::string::is_ascii_spec_bytes("temp");
            vstd::string::is_ascii_spec_bytes("user");
            vstd::string::is_ascii_spec_bytes("home");
            vstd::string::is_ascii_spec_bytes("misc");
            assert(!"".spec_bytes().contains(0u8));
            assert(!"binary".spec_bytes().contains(0u8)) by {
                assert(forall|i: int| 0 <= i < 6 ==> "binary".spec_bytes()[i] != 0u8);
            }
            assert(!"boot".spec_bytes().contains(0u8)) by {
                assert(forall|i: int| 0 <= i < 4 ==> "boot".spec_bytes()[i] != 0u8);
            }
            assert(!"x86_64".spec_bytes().contains(0u8)) by {
                assert(forall|i: int| 0 <= i < 6 ==> "x86_64".spec_bytes()[i] != 0u8);
            }
            assert(!"devices".spec_bytes().contains(0u8)) by {
                assert(forall|i: int| 0 <= i < 7 ==> "devices".spec_bytes()[i] != 0u8);
            }
            assert(!"mount".spec_bytes().contains(0u8)) by {
                assert(forall|i: int| 0 <= i < 5 ==> "mount".spec_bytes()[i] != 0u8);
            }
            assert(!"mutable".spec_bytes().contains(0u8)) by {
                assert(forall|i: int| 0 <= i < 7 ==> "mutable".spec_bytes()[i] != 0u8);
            }
            assert(!"spool".spec_bytes().contains(0u8)) by {
                assert(forall|i: int| 0 <= i < 5 ==> "spool".spec_bytes()[i] != 0u8);
            }
            assert(!"cache".spec_bytes().contains(0u8)) by {
                assert(forall|i: int| 0 <= i < 5 ==> "cache".spec_bytes()[i] != 0u8);
            }
            assert(!"runtime".spec_bytes().contains(0u8)) by {
                assert(forall|i: int| 0 <= i < 7 ==> "runtime".spec_bytes()[i] != 0u8);
            }
            assert(!"logs".spec_bytes().contains(0u8)) by {
                assert(forall|i: int| 0 <= i < 4 ==> "logs".spec_bytes()[i] != 0u8);
            }
            assert(!"radian_core.log".spec_bytes().contains(0u8)) by {
                assert(forall|i: int| 0 <= i < 15 ==> "radian_core.log".spec_bytes()[i] != 0u8);
            }
            assert(!"system".spec_bytes().contains(0u8)) by {
                assert(forall|i: int| 0 <= i < 6 ==> "system".spec_bytes()[i] != 0u8);
            }
            assert(!"include".spec_bytes().contains(0u8)) by {
                assert(forall|i: int| 0 <= i < 7 ==> "include".spec_bytes()[i] != 0u8);
            }
            assert(!"lib".spec_bytes().contains(0u8)) by {
                assert(forall|i: int| 0 <= i < 3 ==> "lib".spec_bytes()[i] != 0u8);
            }
            assert(!"opt".spec_bytes().contains(0u8)) by {
                assert(forall|i: int| 0 <= i < 3 ==> "opt".spec_bytes()[i] != 0u8);
            }
            assert(!"run".spec_bytes().contains(0u8)) by {
                assert(forall|i: int| 0 <= i < 3 ==> "run".spec_bytes()[i] != 0u8);
            }
            assert(!"temp".spec_bytes().contains(0u8)) by {
                assert(forall|i: int| 0 <= i < 4 ==> "temp".spec_bytes()[i] != 0u8);
            }
            assert(!"user".spec_bytes().contains(0u8)) by {
                assert(forall|i: int| 0 <= i < 4 ==> "user".spec_bytes()[i] != 0u8);
            }
            assert(!"home".spec_bytes().contains(0u8)) by {
                assert(forall|i: int| 0 <= i < 4 ==> "home".spec_bytes()[i] != 0u8);
            }
            assert(!"misc".spec_bytes().contains(0u8)) by {
                assert(forall|i: int| 0 <= i < 4 ==> "misc".spec_bytes()[i] != 0u8);
            }
            lemma_node_name_roundtrip(db.vfs_nodes@[0], "".spec_bytes());
            lemma_node_name_roundtrip(db.vfs_nodes@[1], "binary".spec_bytes());
            lemma_node_name_roundtrip(db.vfs_nodes@[2], "boot".spec_bytes());
            lemma_node_name_roundtrip(db.vfs_nodes@[3], "x86_64".spec_bytes());
            lemma_node_name_roundtrip(db.vfs_nodes@[4], "devices".spec_bytes());
            lemma_node_name_roundtrip(db.vfs_nodes@[5], "mount".spec_bytes());
            lemma_node_name_roundtrip(db.vfs_nodes@[6], "mutable".spec_bytes());
            lemma_node_name_roundtrip(db.vfs_nodes@[7], "spool".spec_bytes());
            lemma_node_name_roundtrip(db.vfs_nodes@[8], "cache".spec_bytes());
            lemma_node_name_roundtrip(db.vfs_nodes@[9], "runtime".spec_bytes());
            lemma_node_name_roundtrip(db.vfs_nodes@[10], "logs".spec_bytes());
            lemma_node_name_roundtrip(db.vfs_nodes@[11], "radian_core.log".spec_bytes());
            lemma_node_name_roundtrip(db.vfs_nodes@[12], "system".spec_bytes());
            lemma_node_name_roundtrip(db.vfs_nodes@[13], "include".spec_bytes());
            lemma_node_name_roundtrip(db.vfs_nodes@[14], "lib".spec_bytes());
            lemma_node_name_roundtrip(db.vfs_nodes@[15], "opt".spec_bytes());
            lemma_node_name_roundtrip(db.vfs_nodes@[16], "run".spec_bytes());
            lemma_node_name_roundtrip(db.vfs_nodes@[17], "temp".spec_bytes());
            lemma_node_name_roundtrip(db.vfs_nodes@[18], "user".spec_bytes());
            lemma_node_name_roundtrip(db.vfs_nodes@[19], "home".spec_bytes());
            lemma_node_name_roundtrip(db.vfs_nodes@[20], "binary".spec_bytes());
            lemma_node_name_roundtrip(db.vfs_nodes@[21], "misc".spec_bytes());
            lemma_node_name_roundtrip(db.vfs_nodes@[22], "opt".spec_bytes());
        }
    }

    /// Appends a provider; a full provider table is a kernel fault.
    pub fn new_provider(db: &mut Database, provider: Provider) -> (r: ProviderHandle)
        requires
            old(db).vfs_providers@.len() < 32,
        ensures
            final(db).vfs_providers@ == old(db).vfs_providers@.push(provider),
            r.0 == old(db).vfs_providers@.len(),
            final(db).workers@ == old(db).workers@,
            final(db).policy_rule@ == old(db).policy_rule@,
            final(db).vfs_nodes@ == old(db).vfs_nodes@,
            final(db).aspaces@ == old(db).aspaces@,
            final(db).users@ == old(db).users@,
            final(db).groups@ == old(db).groups@,
            final(db).phys == old(db).phys,
            final(db).page_tables@ == old(db).page_tables@,
            final(db).kernel_start == old(db).kernel_start,
            final(db).kernel_end == old(db).kernel_end,
    {
        let id = db.vfs_providers.len() as u16;
        db.vfs_providers.push(provider);
        ProviderHandle(id)
    }

    /// A node without a provider of its own: reads and writes fall back to
    /// provider 0.
    pub fn new_node(db: &mut Database, name: &str, parent: NodeHandle) -> (r: NodeHandle)
        requires
            old(db).vfs_nodes@.len() < 128,
        ensures
            final(db).vfs_nodes@.len() == old(db).vfs_nodes@.len() + 1,
            forall|i: int| 0 <= i < old(db).vfs_nodes@.len() ==> final(db).vfs_nodes@[i] == old(
                db,
            ).vfs_nodes@[i],
            ({
                let node = final(db).vfs_nodes@[old(db).vfs_nodes@.len() as int];
                &&& node.spec_parent() == parent
                &&& node.spec_provider() == ProviderHandle(0u16)
                &&& node.spec_name().len() == 24
                &&& forall|i: int| 0 <= i < 24 ==> node.spec_name()[i] == (
                    if i < name.spec_bytes().len() {
                        name.spec_bytes()[i]
                    } else {
                        0u8
                    })
            }),
            r.0 == old(db).vfs_nodes@.len(),
            final(db).workers@ == old(db).workers@,
            final(db).policy_rule@ == old(db).policy_rule@,
            final(db).vfs_providers@ == old(db).vfs_providers@,
            final(db).aspaces@ == old(db).aspaces@,
            final(db).users@ == old(db).users@,
            final(db).groups@ == old(db).groups@,
            final(db).phys == old(db).phys,
            final(db).page_tables@ == old(db).page_tables@,
            final(db).kernel_start == old(db).kernel_start,
            final(db).kernel_end == old(db).kernel_end,
    {
        Self::new_node_with_provider(db, name, parent, ProviderHandle(0))
    }

    /// Appends a node. A name longer than 24 bytes is truncated, exactly as
    /// in the byte-for-byte copy it mirrors; a full node table is a kernel
    /// fault.
    pub fn new_node_with_provider(
        db: &mut Database,
        name: &str,
        parent: NodeHandle,
        provider: ProviderHandle,
    ) -> (r: NodeHandle)
        requires
            old(db).vfs_nodes@.len() < 128,
        ensures
            final(db).vfs_nodes@.len() == old(db).vfs_nodes@.len() + 1,
            forall|i: int| 0 <= i < old(db).vfs_nodes@.len() ==> final(db).vfs_nodes@[i] == old(
                db,
            ).vfs_nodes@[i],
            ({
                let node = final(db).vfs_nodes@[old(db).vfs_nodes@.len() as int];
                &&& node.spec_parent() == parent
                &&& node.spec_provider() == provider
                &&& node.spec_name().len() == 24
                &&& forall|i: int| 0 <= i < 24 ==> node.spec_name()[i] == (
                    if i < name.spec_bytes().len() {
                        name.spec_bytes()[i]
                    } else {
                        0u8
                    })
            }),
            r.0 == old(db).vfs_nodes@.len(),
            final(db).workers@ == old(db).workers@,
            final(db).policy_rule@ == old(db).policy_rule@,
            final(db).vfs_providers@ == old(db).vfs_providers@,
            final(db).aspaces@ == old(db).aspaces@,
            final(db).users@ == old(db).users@,
            final(db).groups@ == old(db).groups@,
            final(db).phys == old(db).phys,
            final(db).page_tables@ == old(db).page_tables@,
            final(db).kernel_start == old(db).kernel_start,
            final(db).kernel_end == old(db).kernel_end,
    {
        let b = name.as_bytes();
        let mut bytes: [u8; 24] = [0u8; 24];
        let mut i: usize = 0;
        while i < 24
            invariant
                i <= 24,
                b@ == name.spec_bytes(),
                bytes@.len() == 24,
                forall|k: int| 0 <= k < i ==> bytes@[k] == (if k < b@.len() {
                    b@[k]
                } else {
                    0u8
                }),
                forall|k: int| i <= k < 24 ==> bytes@[k] == 0u8,
            decreases 24 - i,
        {
            if i < b.len() {
                bytes[i] = b[i];
            }
            i = i + 1;
        }
        let id = db.vfs_nodes.len() as u16;
        db.vfs_nodes.push(Node { name: bytes, parent, provider });
        NodeHandle(id)
    }

    /// The children of `which`, in slot order.
    pub fn for_each_children(db: &Database, which: NodeHandle) -> (r: Vec<NodeHandle>)
        ensures
            r@ == children_upto(db.vfs_nodes@, which, db.vfs_nodes@.len() as int),
    {
        let ghost nodes = db.vfs_nodes@;
        let n = db.vfs_nodes.len();
        let mut r: Vec<NodeHandle> = Vec::new();
        let mut i: usize = 1;
        while i < n
            invariant
                nodes == db.vfs_nodes@,
                n == nodes.len(),
                1 <= i,
                i <= n || (i == 1 && n == 0),
                r@ == children_upto(nodes, which, i as int),
            decreases n - i,
        {
            let node = match db.vfs_nodes.get(i) {
                Some(node) => node,
                None => {
                    proof {
                        assert(false);
                    }
                    return r;
                },
            };
            if node.parent == which {
                r.push(NodeHandle(i as u16));
            }
            i = i + 1;
        }
        proof {
            if n == 0 {
                assert(r@ =~= children_upto(nodes, which, 0));
            }
        }
        r
    }

    /// The first child of `from` whose name reads as `name`, if any.
    pub fn find_children(db: &Database, from: NodeHandle, name: &str) -> (r: Option<NodeHandle>)
        ensures
            ({
                let i = first_child_named(db.vfs_nodes@, from, name.spec_bytes(), 1);
                if i < db.vfs_nodes@.len() {
                    r == Some(NodeHandle(i as u16))
                } else {
                    r is None
                }
            }),
    {
        let ghost nodes = db.vfs_nodes@;
        let ghost target = name.spec_bytes();
        let n = db.vfs_nodes.len();
        let mut i: usize = 1;
        while i < n
            invariant
                nodes == db.vfs_nodes@,
                target == name.spec_bytes(),
                n == nodes.len(),
                1 <= i,
                i <= n || (i == 1 && n == 0),
                forall|j: int| 1 <= j < i ==> !((#[trigger] nodes[j]).spec_parent() == from
                    && prefix_to_nul(nodes[j].spec_name()) == target),
            decreases n - i,
        {
            let node = match db.vfs_nodes.get(i) {
                Some(node) => node,
                None => {
                    proof {
                        assert(false);
                    }
                    return None;
                },
            };
            if node.parent == from {
                let node_name = node.get_name();
                if eq_bytes_str(&node_name, name) {
                    proof {
                        lemma_first_child_skip(nodes, from, target, 1, i as int);
                    }
                    return Some(NodeHandle(i as u16));
                }
            }
            i = i + 1;
        }
        proof {
            if n > 0 {
                lemma_first_child_skip(nodes, from, target, 1, n as int);
            }
            assert(first_child_named(nodes, from, target, 1) == nodes.len());
        }
        None
    }

    /// The node behind a handle; an unknown handle is a kernel fault.
    pub fn get_node<'a>(db: &'a Database, handle: NodeHandle) -> (r: &'a Node)
        requires
            handle.0 < db.vfs_nodes@.len(),
        ensures
            *r == db.vfs_nodes@[handle.0 as int],
    {
        match db.vfs_nodes.get(handle.0 as usize) {
            Some(node) => node,
            None => {
                proof {
                    assert(false);
                }
                unreached()
            },
        }
    }

    /// Mutable access to a node; an unknown handle is a kernel fault.
    pub fn get_node_mut<'a>(db: &'a mut Database, handle: NodeHandle) -> (r: &'a mut Node)
        requires
            handle.0 < old(db).vfs_nodes@.len(),
        ensures
            *r == old(db).vfs_nodes@[handle.0 as int],
            final(db).vfs_nodes@ == old(db).vfs_nodes@.update(handle.0 as int, *final(r)),
            final(db).workers@ == old(db).workers@,
            final(db).policy_rule@ == old(db).policy_rule@,
            final(db).vfs_providers@ == old(db).vfs_providers@,
            final(db).aspaces@ == old(db).aspaces@,
            final(db).users@ == old(db).users@,
            final(db).groups@ == old(db).groups@,
            final(db).phys == old(db).phys,
            final(db).page_tables@ == old(db).page_tables@,
            final(db).kernel_start == old(db).kernel_start,
            final(db).kernel_end == old(db).kernel_end,
    {
        db.vfs_nodes.at_mut(handle.0 as usize)
    }

    /// Dispatches a write to the provider. The fallback provider fails with
    /// `Unknown`; the log provider admits exactly the actors that hold
    /// `WRITE_LOG` and reports the full length written (the bytes go to the
    /// debug serial, which is the shim's). An unknown provider handle is a
    /// kernel fault.
    pub fn invoke_provider_write(
        db: &mut Database,
        handle: ProviderHandle,
        actor: ObjectHandle,
        data: &[u8],
    ) -> (r: Result<usize, Error>)
        requires
            handle.0 < old(db).vfs_providers@.len(),
        ensures
            *final(db) == *old(db),
            ({
                match old(db).vfs_providers@[handle.0 as int] {
                    Provider::Fallback => r == Result::<usize, Error>::Err(Error::Unknown),
                    Provider::Log => if policy::spec_check_capability(
                        old(db).policy_rule@,
                        actor,
                        policy::Capability(policy::Capability::WRITE_LOG),
                    ) {
                        r == Result::<usize, Error>::Ok(data@.len() as usize)
                    } else {
                        r == Result::<usize, Error>::Err(Error::Policy)
                    },
                }
            }),
    {
        let provider = match db.vfs_providers.get(handle.0 as usize) {
            Some(p) => *p,
            None => {
                proof {
                    assert(false);
                }
                return Err(Error::Unknown);
            },
        };
        match provider {
            Provider::Fallback => Err(Error::Unknown),
            Provider::Log => {
                let caps = policy::Capability::default().with(policy::Capability::WRITE_LOG);
                proof {
                    assert(0u16 | 2u16 == 2u16) by (bit_vector);
                    assert(caps == policy::Capability(policy::Capability::WRITE_LOG));
                }
                if policy::Manager::check_capability(db, actor, caps) {
                    Ok(data.len())
                } else {
                    Err(Error::Policy)
                }
            },
        }
    }

    /// Dispatches a read. Neither built-in provider serves reads: the
    /// fallback fails with `Unknown` and the log provider with `Policy`. An
    /// unknown provider handle is a kernel fault.
    pub fn invoke_provider_read(
        db: &mut Database,
        handle: ProviderHandle,
        actor: ObjectHandle,
        data: &mut Vec<u8>,
    ) -> (r: Result<usize, Error>)
        requires
            handle.0 < old(db).vfs_providers@.len(),
        ensures
            *final(db) == *old(db),
            final(data)@ == old(data)@,
            ({
                match old(db).vfs_providers@[handle.0 as int] {
                    Provider::Fallback => r == Result::<usize, Error>::Err(Error::Unknown),
                    Provider::Log => r == Result::<usize, Error>::Err(Error::Policy),
                }
            }),
    {
        let _ = actor;
        let provider = match db.vfs_providers.get(handle.0 as usize) {
            Some(p) => *p,
            None => {
                proof {
                    assert(false);
                }
                return Err(Error::Unknown);
            },
        };
        match provider {
            Provider::Fallback => Err(Error::Unknown),
            Provider::Log => Err(Error::Policy),
        }
    }
}

/// Byte-for-byte equality between a byte vector and a string's bytes.
fn eq_bytes_str(v: &Vec<u8>, s: &str) -> (r: bool)
    ensures
        r == (v@ == s.spec_bytes()),
{
    let b = s.as_bytes();
    if v.len() != b.len() {
        proof {
            assert(v@.len() != s.spec_bytes().len());
        }
        return false;
    }
    let mut i: usize = 0;
    while i < b.len()
        invariant
            b@ == s.spec_bytes(),
            v@.len() == b@.len(),
            i <= b@.len(),
            forall|k: int| 0 <= k < i ==> v@[k] == b@[k],
        decreases b@.len() - i,
    {
        if v[i] != b[i] {
            return false;
        }
        i = i + 1;
    }
    proof {
        assert(v@ =~= s.spec_bytes());
    }
    true
}

/// The node just created by `new_node(name, parent)` is what
/// `find_children(parent, name)` then returns, provided the name fits and no
/// earlier child of `parent` already carries it.
pub proof fn lemma_new_node_found(
    nodes: Seq<Node>,
    parent: NodeHandle,
    name: Seq<u8>,
    node: Node,
)
    requires
        nodes.len() >= 2,
        nodes.last() == node,
        node.spec_parent() == parent,
        prefix_to_nul(node.spec_name()) == name,
        forall|j: int| 1 <= j < nodes.len() - 1 ==> !((#[trigger] nodes[j]).spec_parent() == parent
            && prefix_to_nul(nodes[j].spec_name()) == name),
    ensures
        first_child_named(nodes, parent, name, 1) == nodes.len() - 1,
{
    if nodes.len() > 1 {
        lemma_first_child_skip(nodes, parent, name, 1, nodes.len() - 1);
    }
}

/// A NUL-free name of at most 24 bytes survives the padded copy: the stored
/// prefix reads back as the name itself.
pub proof fn lemma_node_name_roundtrip(node: Node, name: Seq<u8>)
    requires
        node.spec_name().len() == 24,
        name.len() <= 24,
        !name.contains(0u8),
        forall|i: int| 0 <= i < 24 ==> node.spec_name()[i] == (if i < name.len() {
            name[i]
        } else {
            0u8
        }),
    ensures
        prefix_to_nul(node.spec_name()) == name,
{
    policy::lemma_padded_prefix(name, node.spec_name());
}

} // verus!
