//! End-to-end checks of the memory subsystems: boot handoff, paging, the
//! heap tree, and ELF loading.

use radian_core::db::{Database, ObjectHandle};
use radian_core::pmm;
use radian_core::task;
use radian_core::tbs;
use radian_core::vmm;
use radian_core::elf;

fn boot_db() -> Database {
    let mut db = Database::init(0, 0);
    let entries = vec![pmm::MemoryEntry {
        virt: 0,
        phys: 0x100000,
        page_count: 256,
        attribute: 0,
        type_: pmm::MemoryType::CONVENTIONAL,
    }];
    pmm::Manager::init(&mut db.phys, &entries);
    db
}

#[test]
fn boot_handoff_first_alloc() {
    let mut db = boot_db();
    // the bitmap's own frame is marked used from the start
    assert!(pmm::Manager::is_allocated(&db.phys, pmm::Handle(0)));
    let h = pmm::Manager::alloc_page(&mut db.phys);
    assert!(h.get(&db.phys) >= 0x100000);
    assert!(pmm::Manager::is_allocated(&db.phys, h));
}

#[test]
fn free_then_alloc_returns_same_frame() {
    let mut db = boot_db();
    let h = pmm::Manager::alloc_page(&mut db.phys);
    pmm::Manager::free_page(&mut db.phys, h);
    let h2 = pmm::Manager::alloc_page(&mut db.phys);
    assert_eq!(h, h2);
}

#[test]
fn identity_map_and_reload() {
    let mut db = boot_db();
    db.aspaces.push(pmm::Handle(0)); // slot 0: the loader's tables
    let frame = pmm::Manager::alloc_page_zeroed(&mut db.phys);
    let aspace = vmm::Manager::new_address_space(&mut db, frame);
    assert_eq!(aspace, vmm::AddressSpaceHandle::get_kernel());
    assert!(!vmm::Manager::has_mapping_present(&db, aspace, 0xB8000));
    vmm::Manager::map(
        &mut db,
        aspace,
        0xB8000,
        0xB8000,
        1,
        vmm::Page::PRESENT | vmm::Page::READ_WRITE,
    );
    assert!(vmm::Manager::has_mapping_present(&db, aspace, 0xB8000));
    let root = vmm::Manager::reload_cr3(&db, aspace);
    assert_eq!(root as usize, frame.get(&db.phys));
}

#[test]
fn map_is_idempotent_on_leaf() {
    let mut db = boot_db();
    db.aspaces.push(pmm::Handle(0));
    let frame = pmm::Manager::alloc_page_zeroed(&mut db.phys);
    let aspace = vmm::Manager::new_address_space(&mut db, frame);
    vmm::Manager::map_single(&mut db, aspace, 0x5000, 0x40000000, 0x3);
    assert!(vmm::Manager::has_mapping_present(&db, aspace, 0x40000000));
    vmm::Manager::map_single(&mut db, aspace, 0x5000, 0x40000000, 0x3);
    assert!(vmm::Manager::has_mapping_present(&db, aspace, 0x40000000));
    // an unrelated address stays unmapped
    assert!(!vmm::Manager::has_mapping_present(&db, aspace, 0x7000_0000));
}

#[test]
fn page_flag_helpers() {
    let p = vmm::Page(0x2000 | 0x3);
    assert!(p.is_present());
    assert_eq!(p.get_physaddr(), 0x2000);
    assert!(p.contains_flags(0x3));
    let q = p.override_flags(0x7);
    assert_eq!(q.0, 0x2000 | 0x7);
}

#[test]
fn interval_tree_sorted_and_splits() {
    let mut tree = tbs::IntrusiveIntervalTree::new();
    tree.init(64, 4096);
    // insert on disjoint bases, out of order
    tree.insert(8192, 128, true);
    tree.insert(4096 + 64, 64, false);
    tree.insert(100000, 256, true);
    tree.insert(50000, 64, true);
    let items = tree.items();
    assert_eq!(items.len(), 5);
    for w in items.windows(2) {
        assert!(w[0].base < w[1].base);
    }
    let hit = tree.find_free(100).expect("a free interval of 100 bytes exists");
    assert!(hit.1 >= 100);
    // carve 128 bytes out of the big free interval at 64
    tree.update_interval(64, 4096 - 128, true);
    tree.insert(64 + 4096 - 128, 128, false);
    let items = tree.items();
    assert!(items.iter().any(|iv| iv.base == 64 + 4096 - 128 && !iv.is_free));
}

#[test]
fn allocator_carves_and_maps() {
    let mut db = boot_db();
    db.aspaces.push(pmm::Handle(0));
    let frame = pmm::Manager::alloc_page_zeroed(&mut db.phys);
    let aspace = vmm::Manager::new_address_space(&mut db, frame);
    assert_eq!(aspace.0, 1);
    let mut heap = tbs::TbsAllocator::new();
    heap.init(&mut db, aspace);
    let p = heap.alloc_in(&mut db, 100, 8).expect("arena has room");
    assert_eq!(p % 64, 0);
    assert!(p >= tbs::ARENA_DEFAULT_BASE);
    assert!(p < tbs::ARENA_DEFAULT_BASE + tbs::ARENA_DEFAULT_SIZE);
    assert!(vmm::Manager::has_mapping_present(&db, aspace, (p as u64) & !0xfff));
    let q = heap.alloc_in(&mut db, 100, 8).expect("arena has room");
    assert_ne!(p, q);
    heap.dealloc(p);
    // the freed interval is free again and findable
    let arena = &heap.arenas[0];
    assert!(arena.tree.items().iter().any(|iv| iv.base == p && iv.is_free));
    let again = heap.alloc_in(&mut db, 100, 8).expect("arena still has room");
    assert_eq!(again % 64, 0);
}

fn sample_elf() -> Vec<u8> {
    // a minimal 64-bit little-endian image: one RW load segment at 0x200000
    let mut b = vec![0u8; 0x1800];
    b[0] = 0x7f;
    b[1] = 0x45;
    b[2] = 0x4c;
    b[3] = 0x46;
    b[4] = 2; // 64-bit
    b[5] = 1; // little endian
    b[6] = 1;
    b[16] = 2; // e_type: EXEC
    b[18] = 0x3e; // e_machine: x86-64
    b[20] = 1; // e_version
    b[24..32].copy_from_slice(&0x200000u64.to_le_bytes()); // entry
    b[32..40].copy_from_slice(&64u64.to_le_bytes()); // phoff
    b[52] = 64; // ehsize
    b[54..56].copy_from_slice(&56u16.to_le_bytes()); // phentsize
    b[56..58].copy_from_slice(&1u16.to_le_bytes()); // phnum
    // program header at 64
    b[64..68].copy_from_slice(&1u32.to_le_bytes()); // PT_LOAD
    b[68..72].copy_from_slice(&6u32.to_le_bytes()); // RW
    b[72..80].copy_from_slice(&0u64.to_le_bytes()); // offset
    b[80..88].copy_from_slice(&0x200000u64.to_le_bytes()); // vaddr
    b[88..96].copy_from_slice(&0x200000u64.to_le_bytes()); // paddr
    b[96..104].copy_from_slice(&0x1800u64.to_le_bytes()); // filesz
    b[104..112].copy_from_slice(&0x2000u64.to_le_bytes()); // memsz
    b[112..120].copy_from_slice(&0x1000u64.to_le_bytes()); // align
    b
}

#[test]
fn elf_reader_decodes_the_header() {
    let b = sample_elf();
    assert!(elf::is_valid(&b));
    assert_eq!(elf::entry_point(&b), 0x200000);
    assert_eq!(elf::ph_count(&b), 1);
    let ph = elf::program_header(&b, 0);
    assert_eq!(ph.p_type, elf::PT_LOAD);
    assert_eq!(ph.virtual_addr, 0x200000);
    assert_eq!(ph.file_size, 0x1800);
    assert_eq!(ph.mem_size, 0x2000);
    let mut broken = b.clone();
    broken[4] = 1; // 32-bit class
    assert!(!elf::is_valid(&broken));
}

#[test]
fn elf_reader_agrees_with_xmas_elf() {
    let b = sample_elf();
    let theirs = xmas_elf::ElfFile::new(&b).expect("well-formed image");
    assert_eq!(theirs.header.pt2.entry_point(), elf::entry_point(&b));
    let ph = elf::program_header(&b, 0);
    let theirs_ph = theirs.program_iter().next().expect("one segment");
    assert_eq!(theirs_ph.virtual_addr(), ph.virtual_addr);
    assert_eq!(theirs_ph.offset(), ph.offset);
    assert_eq!(theirs_ph.file_size(), ph.file_size);
    assert_eq!(theirs_ph.mem_size(), ph.mem_size);
}

#[test]
fn elf_load_maps_user_pages() {
    let mut db = boot_db();
    db.aspaces.push(pmm::Handle(0));
    let frame = pmm::Manager::alloc_page_zeroed(&mut db.phys);
    let aspace = vmm::Manager::new_address_space(&mut db, frame);
    let worker = task::Manager::new_worker(&mut db, aspace);
    let b = sample_elf();
    let plan = task::Manager::load_elf_into_worker(&mut db, worker, &b, true);
    assert_eq!(plan.len(), 2);
    assert!(vmm::Manager::has_mapping_present(&db, aspace, 0x200000));
    assert!(vmm::Manager::has_mapping_present(&db, aspace, 0x201000));
    // first page: all bytes come from the file
    assert_eq!(plan[0].vaddr, 0x200000);
    assert_eq!(plan[0].copy_len, 0x1000);
    assert_eq!(plan[0].src_off, 0);
    assert_eq!(plan[0].zero_len, 0);
    // second page: half file bytes, half zeroed tail
    assert_eq!(plan[1].vaddr, 0x201000);
    assert_eq!(plan[1].copy_len, 0x800);
    assert_eq!(plan[1].src_off, 0x1000);
    assert_eq!(plan[1].zero_dst, 0x800);
    assert_eq!(plan[1].zero_len, 0x800);
}

#[test]
fn segment_checks_gate_the_loader() {
    let b = sample_elf();
    assert!(task::check_segs(&b));
    // a second load segment falling inside the first one's page span is refused
    let mut two = b.clone();
    two[56..58].copy_from_slice(&2u16.to_le_bytes());
    two[120..124].copy_from_slice(&1u32.to_le_bytes()); // PT_LOAD
    two[124..128].copy_from_slice(&6u32.to_le_bytes());
    two[128..136].copy_from_slice(&0u64.to_le_bytes());
    two[136..144].copy_from_slice(&0x201000u64.to_le_bytes());
    two[144..152].copy_from_slice(&0x201000u64.to_le_bytes());
    two[152..160].copy_from_slice(&0x100u64.to_le_bytes());
    two[160..168].copy_from_slice(&0x100u64.to_le_bytes());
    two[168..176].copy_from_slice(&0x1000u64.to_le_bytes());
    assert!(elf::is_valid(&two));
    assert!(!task::check_segs(&two));
    // moved clear of the first segment, the image passes again
    two[136..144].copy_from_slice(&0x300000u64.to_le_bytes());
    two[144..152].copy_from_slice(&0x300000u64.to_le_bytes());
    assert!(task::check_segs(&two));
    // a file window larger than the memory span is refused
    let mut big = b.clone();
    big[96..104].copy_from_slice(&0x4000u64.to_le_bytes());
    assert!(!task::check_segs(&big));
}

#[test]
fn free_frames_are_counted() {
    let mut db = boot_db();
    let before = pmm::Manager::free_frame_count(&db.phys);
    assert!(before > 0);
    let h = pmm::Manager::alloc_page(&mut db.phys);
    assert_eq!(pmm::Manager::free_frame_count(&db.phys), before - 1);
    pmm::Manager::free_page(&mut db.phys, h);
    assert_eq!(pmm::Manager::free_frame_count(&db.phys), before);
}

#[test]
fn tasks_get_a_stack() {
    let mut db = boot_db();
    db.aspaces.push(pmm::Handle(0));
    let frame = pmm::Manager::alloc_page_zeroed(&mut db.phys);
    let aspace = vmm::Manager::new_address_space(&mut db, frame);
    let worker = task::Manager::new_worker(&mut db, aspace);
    let t = task::Manager::new_task(&mut db, worker);
    assert_eq!(t, Some(task::TaskHandle(0)));
    assert!(vmm::Manager::has_mapping_present(&db, aspace, task::TASK_STACK_BASE));
    let missing = ObjectHandle::new::<1>(42);
    assert_eq!(task::Manager::new_task(&mut db, missing), None);
}

#[test]
fn scheduler_rotates_the_active_flag() {
    let mut db = boot_db();
    let a0 = vmm::AddressSpaceHandle(0);
    let w0 = task::Manager::new_worker(&mut db, a0);
    let _w1 = task::Manager::new_worker(&mut db, a0);
    assert_eq!(w0.get_id(), 0);
    let next = task::Manager::scheduler_tick(&mut db);
    assert_eq!(next.get_id(), 1);
    let next = task::Manager::scheduler_tick(&mut db);
    assert_eq!(next.get_id(), 0);
}

#[test]
fn bump_allocator_watermark() {
    let mut bump = radian_core::boot::BumpAllocator::<4096>::new();
    let a = bump.allocate(100, 8).expect("heap has room");
    assert_eq!(a % 8, 0);
    let b = bump.allocate(100, 64).expect("heap has room");
    assert_eq!(b % 64, 0);
    assert!(b >= a + 100);
    // only the newest block rewinds the watermark
    bump.dealloc(b, 100);
    let c = bump.allocate(100, 64).expect("heap has room");
    assert_eq!(c, b);
    assert!(bump.allocate(5000, 1).is_none());
}
