//! Checks of the object database, policy engine, VFS, descriptors and
//! console helpers.

use radian_core::containers::{StaticString, StaticVec};
use radian_core::cpu;
use radian_core::db::{Database, ObjectHandle, Path, PathBuf};
use radian_core::policy::{self, Action, Capability, PolicyRule, PolicyRuleHandle};
use radian_core::shell;
use radian_core::vfs;

fn fresh_db() -> Database {
    Database::init(0, 0)
}

#[test]
fn descriptor_sizes_match_the_architecture() {
    assert_eq!(core::mem::size_of::<cpu::GlobalDescriptor>(), 8);
    assert_eq!(core::mem::size_of::<cpu::InterruptDescriptor>(), 16);
}

#[test]
fn gdt_encoding_matches_the_layout() {
    let d = cpu::GlobalDescriptor::new(0, 0xfffff, 0x9a, 0xa);
    assert_eq!(d.limit_1, 0xffff);
    assert_eq!(d.base_1, 0);
    assert_eq!(d.base_2, 0);
    assert_eq!(d.access, 0x9a);
    assert_eq!(d.flags, 0xaf);
    assert_eq!(d.base_3, 0);
    let (low, high) = cpu::GlobalDescriptor::new_tss(0x1_2345_6789, 0x89, 0x0);
    assert_eq!(low.access, 0x89);
    assert_eq!(low.base_1, 0x6789);
    assert_eq!(low.base_2, 0x45);
    assert_eq!(low.base_3, 0x23);
    assert_eq!(high.limit_1, 0x1);
}

#[test]
fn idt_gate_splits_the_address() {
    let g = cpu::InterruptDescriptor::new_interrupt_gate(0x1234_5678_9abc_def0);
    assert_eq!(g.offset_1, 0xdef0);
    assert_eq!(g.offset_2, 0x9abc);
    assert_eq!(g.offset_3, 0x1234_5678);
    assert_eq!(g.selector, cpu::KERNEL_CODE_SEGMENT);
    assert_eq!(g.type_attributes, 0x8e);
}

#[test]
fn interrupt_patch_rewrites_the_jump() {
    let thunk_base: u64 = 0x40000;
    let handler: u64 = 0x5_0000;
    let (gdt, idt, mut thunks) = cpu::Manager::init(0x9000, thunk_base, handler);
    assert_eq!(gdt.len(), 7);
    assert_eq!(idt.len(), 256);
    assert_eq!(thunks.len(), 256);
    assert_eq!(thunks[3][0], 0x6a);
    assert_eq!(thunks[3][1], 3);
    assert_eq!(thunks[3][2], 0xe9);
    let target: u64 = 0x4_2000;
    cpu::Manager::register_interrupt(&mut thunks, thunk_base, target, 3);
    let rel = (target - (thunk_base + 3 * 16 + 7)) as u32;
    assert_eq!(&thunks[3][3..7], &rel.to_le_bytes());
    assert_eq!(thunks[3][1], 3);
    // the other vectors still point at the fallback handler
    let rel4 = (handler - (thunk_base + 4 * 16 + 7)) as u32;
    assert_eq!(&thunks[4][3..7], &rel4.to_le_bytes());
}

#[test]
fn tag_roundtrip_masks_to_four_bits() {
    let a = Action(0).with(Action::START_TASK);
    assert_eq!(a.set_tag(0x3).get_tag(), 0x3);
    assert_eq!(a.set_tag(0xff).get_tag(), 0xff & 0x0f);
    // the action mask survives tagging
    assert!(a.set_tag(0x7).contains(Action(Action::START_TASK)));
}

#[test]
fn with_implies_contains() {
    let c = Capability::new().with(Capability::WRITE_LOG);
    assert!(c.contains(Capability(Capability::WRITE_LOG)));
    let full = Capability(0x55).with(Capability::NETWORK_ACCESS);
    assert!(full.contains(Capability(Capability::NETWORK_ACCESS)));
}

#[test]
fn first_matching_rule_decides() {
    let mut db = fresh_db();
    policy::Manager::add_rule(&mut db, PolicyRule::default()); // the default slot
    let subject = ObjectHandle::new::<1>(0);
    let first = PolicyRule {
        subject,
        allowed: Action(0).with(Action::START_TASK),
        capabilities: Capability::new(),
    };
    let second = PolicyRule {
        subject,
        allowed: Action(0).with(Action::ACCESS_DEVICE),
        capabilities: Capability::new(),
    };
    policy::Manager::add_rule(&mut db, first);
    policy::Manager::add_rule(&mut db, second);
    assert!(policy::Manager::check_action(&db, subject, Action(Action::START_TASK)));
    // the second rule never gets a say
    assert!(!policy::Manager::check_action(&db, subject, Action(Action::ACCESS_DEVICE)));
}

#[test]
fn rules_persist_until_removed() {
    let mut db = fresh_db();
    policy::Manager::add_rule(&mut db, PolicyRule::default());
    let subject = ObjectHandle::new::<1>(7);
    let rule = PolicyRule {
        subject,
        allowed: Action(0).with(Action::WRITE_TO),
        capabilities: Capability::new().with(Capability::READ_FILESYSTEM),
    };
    let h = policy::Manager::add_rule(&mut db, rule);
    assert_eq!(h, PolicyRuleHandle(1));
    assert_eq!(*db.policy_rule.get(1).unwrap(), rule);
    policy::Manager::remove_rule(&mut db, h);
    assert_eq!(*db.policy_rule.get(1).unwrap(), PolicyRule::default());
    // the tombstone slot is reused by the next insert
    let h2 = policy::Manager::add_rule(&mut db, rule);
    assert_eq!(h2, PolicyRuleHandle(1));
}

#[test]
fn policy_allow_scenario() {
    let mut db = fresh_db();
    policy::Manager::init(&mut db);
    assert_eq!(db.users.len(), 1);
    assert_eq!(policy::Manager::get_user(&db, ObjectHandle::new::<5>(0)).get_name(), b"admin");
    policy::Manager::add_rule(&mut db, PolicyRule::default());
    let a0 = radian_core::vmm::AddressSpaceHandle(0);
    let admin_worker = radian_core::task::Manager::new_worker(&mut db, a0);
    let start_task = Action(0).with(Action::START_TASK);
    policy::Manager::add_rule(
        &mut db,
        PolicyRule {
            subject: admin_worker,
            allowed: start_task,
            capabilities: Capability::new().with(Capability::WRITE_LOG),
        },
    );
    assert!(policy::Manager::check_action(&db, admin_worker, start_task));
    assert!(!policy::Manager::check_capability(
        &db,
        admin_worker,
        Capability(Capability::NETWORK_ACCESS),
    ));
    assert!(policy::Manager::check_capability(
        &db,
        admin_worker,
        Capability(Capability::WRITE_LOG),
    ));
    assert_eq!(db.find_from_str("worker_0"), Some(admin_worker));
}

#[test]
fn vfs_skeleton_and_lookup() {
    let mut db = fresh_db();
    vfs::Manager::init(&mut db);
    assert_eq!(db.vfs_nodes.len(), 23);
    let mutable_dir = vfs::Manager::find_children(&db, vfs::NodeHandle(0), "mutable")
        .expect("the skeleton has a mutable directory");
    let logs = vfs::Manager::find_children(&db, mutable_dir, "logs").expect("logs exists");
    let log_file =
        vfs::Manager::find_children(&db, logs, "radian_core.log").expect("log file exists");
    let node = vfs::Manager::get_node(&db, log_file);
    assert_eq!(node.get_name(), b"radian_core.log");
    assert_eq!(*node.get_parent(), logs);
    assert_eq!(*node.get_provider(), vfs::ProviderHandle(1));
    assert!(vfs::NodeHandle(0).is_root());
    assert!(!log_file.is_root());
    // the rest of the directory layout, slot by slot
    let names: [&[u8]; 23] = [
        b"", b"binary", b"boot", b"x86_64", b"devices", b"mount", b"mutable", b"spool", b"cache",
        b"runtime", b"logs", b"radian_core.log", b"system", b"include", b"lib", b"opt", b"run",
        b"temp", b"user", b"home", b"binary", b"misc", b"opt",
    ];
    let parents: [u16; 23] = [
        0, 0, 0, 2, 0, 0, 0, 6, 6, 6, 6, 10, 0, 12, 12, 12, 12, 0, 0, 18, 18, 0, 0,
    ];
    for slot in 0..23u16 {
        let node = vfs::Manager::get_node(&db, vfs::NodeHandle(slot));
        assert_eq!(node.get_name(), names[slot as usize]);
        assert_eq!(*node.get_parent(), vfs::NodeHandle(parents[slot as usize]));
        let want = if slot == 11 { 1 } else { 0 };
        assert_eq!(*node.get_provider(), vfs::ProviderHandle(want));
    }
}

#[test]
fn node_creation_is_found_under_its_parent() {
    let mut db = fresh_db();
    vfs::Manager::init(&mut db);
    let parent = vfs::Manager::find_children(&db, vfs::NodeHandle(0), "temp").unwrap();
    let child = vfs::Manager::new_node(&mut db, "scratch", parent);
    assert_eq!(vfs::Manager::find_children(&db, parent, "scratch"), Some(child));
    assert_eq!(*vfs::Manager::get_node(&db, child).get_parent(), parent);
    let kids = vfs::Manager::for_each_children(&db, parent);
    assert!(kids.contains(&child));
}

#[test]
fn log_write_is_gated_by_capability() {
    let mut db = fresh_db();
    vfs::Manager::init(&mut db);
    policy::Manager::add_rule(&mut db, PolicyRule::default());
    let a0 = radian_core::vmm::AddressSpaceHandle(0);
    let admin_worker = radian_core::task::Manager::new_worker(&mut db, a0);
    policy::Manager::add_rule(
        &mut db,
        PolicyRule {
            subject: admin_worker,
            allowed: Action(0).with(Action::START_TASK),
            capabilities: Capability::new().with(Capability::WRITE_LOG),
        },
    );
    let log_provider = vfs::ProviderHandle(1);
    let r = vfs::Manager::invoke_provider_write(&mut db, log_provider, admin_worker, b"hi");
    assert_eq!(r, Ok(2));
    let stranger = radian_core::task::Manager::new_worker(&mut db, a0);
    let r = vfs::Manager::invoke_provider_write(&mut db, log_provider, stranger, b"hi");
    assert_eq!(r, Err(vfs::Error::Policy));
    // the fallback provider refuses everything
    let r = vfs::Manager::invoke_provider_write(&mut db, vfs::ProviderHandle(0), admin_worker, b"hi");
    assert_eq!(r, Err(vfs::Error::Unknown));
    let mut buf = Vec::new();
    let r = vfs::Manager::invoke_provider_read(&mut db, log_provider, admin_worker, &mut buf);
    assert_eq!(r, Err(vfs::Error::Policy));
}

#[test]
fn find_from_str_parses_worker_names() {
    let mut db = fresh_db();
    let a0 = radian_core::vmm::AddressSpaceHandle(0);
    let w0 = radian_core::task::Manager::new_worker(&mut db, a0);
    assert_eq!(db.find_from_str("worker_0"), Some(w0));
    assert_eq!(db.find_from_str("worker_1"), None);
    assert_eq!(db.find_from_str("actor_0"), None);
    // a malformed number reads as zero, as in the lookup this mirrors
    assert_eq!(db.find_from_str("worker_abc"), Some(w0));
}

#[test]
fn static_containers_behave() {
    let mut v: StaticVec<u32, 4> = StaticVec::new();
    assert!(v.is_empty());
    assert_eq!(v.max_len(), 4);
    v.push(1);
    v.push(2);
    assert_eq!(v.len(), 2);
    assert_eq!(v.get(0), Some(&1));
    assert_eq!(v.get(7), None);
    assert_eq!(v.pop(), Some(2));
    v.push(2);
    v.push(3);
    v.push(4);
    // full: the first element is dropped, the last takes its place
    v.push_fifo(5);
    assert_eq!(v.iter().as_slice(), &[4, 2, 3, 5]);
    let s: StaticString<8> = StaticString::from_str("hi");
    assert_eq!(s.len(), 2);
    assert_eq!(&s.bytes()[..2], b"hi");
    assert_eq!(s.bytes()[2], 0);
}

#[test]
fn path_pieces() {
    let raw = PathBuf::from_str("system/lib/radian_core.log");
    let p = raw.path();
    let comps = p.components();
    assert_eq!(comps, vec!["system", "lib", "radian_core.log"]);
    assert_eq!(p.file_name(), Some("radian_core".to_string()));
    assert_eq!(p.extension(), Some("log".to_string()));
    let dot = Path::new();
    assert_eq!(dot.components(), vec!["."]);
}

#[test]
fn console_helpers() {
    assert_eq!(shell::levenshtein_distance("map", "mapl"), 1);
    assert_eq!(shell::levenshtein_distance("tree", "tree"), 0);
    assert_eq!(shell::levenshtein_distance("abc", ""), 3);
    assert_eq!(shell::levenshtein_distance("kitten", "sitting"), 3);
    assert_eq!(shell::levenshtein_distance("averyveryverylongname", "x"), 0);
    assert_eq!(shell::parse_literal("123"), Some(123));
    assert_eq!(shell::parse_literal("0x1f"), Some(31));
    assert_eq!(shell::parse_literal("0h1F"), Some(31));
    assert_eq!(shell::parse_literal("0b101"), Some(5));
    assert_eq!(shell::parse_literal("12a"), None);
    assert_eq!(shell::parse_literal(""), None);
    assert_eq!(shell::parse_literal("99999999999999999999999999"), None);
    assert_eq!(shell::parse_boolean("YES"), Some(true));
    assert_eq!(shell::parse_boolean("on"), Some(true));
    assert_eq!(shell::parse_boolean("T"), Some(true));
    assert_eq!(shell::parse_boolean("off"), Some(false));
    assert_eq!(shell::parse_boolean("2"), Some(false));
}
