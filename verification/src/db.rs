//! The kernel object database: one value that owns every kernel table.
//!
//! Managers take it by exclusive reference; cross-subsystem references are
//! small typed indices into its tables.

use vstd::prelude::*;
use vstd::string::StringSliceAdditionalSpecFns;
use vstd::string::StrSliceExecFns;
use crate::containers::StaticVec;
use crate::{pmm, policy, task, vfs, vmm};

verus! {

/// A fat object id: a table index and a type tag. Use it where the source of
/// an id is unknown or the object has no handle type of its own.
#[derive(Debug, Clone, Copy, PartialEq, Eq, Structural, Hash)]
pub struct ObjectHandle {
    pub id: u16,
    pub type_: u16,
}

impl Default for ObjectHandle {
    /// The unassigned sentinel.
    fn default() -> (r: Self)
        ensures
            r == ObjectHandle::spec_none(),
    {
        ObjectHandle { id: 0, type_: 0 }
    }
}

impl ObjectHandle {
    pub const NONE: u16 = 0;
    pub const WORKER: u16 = 1;
    pub const ACTOR: u16 = 2;
    pub const ADDRESS_SPACE: u16 = 3;
    pub const VFS_NODE: u16 = 4;
    pub const USER: u16 = 5;
    pub const GROUP: u16 = 6;

    pub open spec fn spec_id(self) -> u16 {
        self.id
    }

    pub open spec fn spec_type(self) -> u16 {
        self.type_
    }

    /// The unassigned sentinel as a spec value.
    pub open spec fn spec_none() -> ObjectHandle {
        ObjectHandle { id: 0, type_: 0 }
    }

    /// The unassigned sentinel.
    pub fn none() -> (r: Self)
        ensures
            r == ObjectHandle::spec_none(),
    {
        ObjectHandle { id: 0, type_: 0 }
    }

    pub fn new<const TYPE: u16>(id: u16) -> (r: Self)
        ensures
            r.spec_id() == id,
            r.spec_type() == TYPE,
    {
        ObjectHandle { id, type_: TYPE }
    }

    pub fn get_id(self) -> (r: u16)
        ensures
            r == self.spec_id(),
    {
        self.id
    }
}

/// The process-wide store of all kernel objects. Slot 0 of the policy table
/// is the default rule; slot 0 of the node table is the VFS root; aspace
/// slot 1 is the kernel address space.
pub struct Database {
    pub workers: StaticVec<task::Worker, 64>,
    pub policy_rule: StaticVec<policy::PolicyRule, 128>,
    pub vfs_nodes: StaticVec<vfs::Node, 128>,
    pub vfs_providers: StaticVec<vfs::Provider, 32>,
    pub aspaces: StaticVec<pmm::Handle, 64>,
    pub users: StaticVec<policy::User, 64>,
    pub groups: StaticVec<policy::Group, 64>,
    /// The frame allocator's arenas.
    pub phys: pmm::PhysicalAllocator,
    /// Every frame in use as a page table, keyed by physical base.
    pub page_tables: Vec<vmm::PageTable>,
    /// The identity-mapped kernel image range, as the linker resolved it.
    pub kernel_start: u64,
    pub kernel_end: u64,
}

impl Database {
    /// A fresh database with empty tables. The kernel image range comes from
    /// the loader, which reads it off the linker symbols.
    pub fn init(kernel_start: u64, kernel_end: u64) -> (r: Database)
        ensures
            r.workers@ == Seq::<task::Worker>::empty(),
            r.policy_rule@ == Seq::<policy::PolicyRule>::empty(),
            r.vfs_nodes@ == Seq::<vfs::Node>::empty(),
            r.vfs_providers@ == Seq::<vfs::Provider>::empty(),
            r.aspaces@ == Seq::<pmm::Handle>::empty(),
            r.users@ == Seq::<policy::User>::empty(),
            r.groups@ == Seq::<policy::Group>::empty(),
            r.phys.arenas() == Seq::<pmm::Arena>::empty(),
            r.phys.wf(),
            r.page_tables@ == Seq::<vmm::PageTable>::empty(),
            r.kernel_start == kernel_start,
            r.kernel_end == kernel_end,
    {
        Database {
            workers: StaticVec::new(),
            policy_rule: StaticVec::new(),
            vfs_nodes: StaticVec::new(),
            vfs_providers: StaticVec::new(),
            aspaces: StaticVec::new(),
            users: StaticVec::new(),
            groups: StaticVec::new(),
            phys: pmm::PhysicalAllocator::new(),
            page_tables: Vec::new(),
            kernel_start,
            kernel_end,
        }
    }

    /// Resolves a textual object name. `worker_<n>` names the worker `n`; a
    /// malformed or oversized number reads as 0, as in the lookup it mirrors.
    pub fn find_from_str(&self, s: &str) -> (r: Option<ObjectHandle>)
        ensures
            r == spec_find_from_str(s.spec_bytes(), self.workers@.len() as int),
    {
        let b = s.as_bytes();
        let prefix: [u8; 7] = [119u8, 111u8, 114u8, 107u8, 101u8, 114u8, 95u8];
        if b.len() < 7 {
            return None;
        }
        let mut i: usize = 0;
        while i < 7
            invariant
                i <= 7,
                b@.len() >= 7,
                b@ == s.spec_bytes(),
                prefix@ == worker_prefix(),
                forall|k: int| 0 <= k < i ==> b@[k] == worker_prefix()[k],
            decreases 7 - i,
        {
            if b[i] != prefix[i] {
                proof {
                    assert(b@[i as int] != worker_prefix()[i as int]);
                }
                return None;
            }
            i = i + 1;
        }
        proof {
            assert(s.spec_bytes().take(7) =~= worker_prefix());
        }
        // Parse the decimal suffix; any malformed value reads as 0.
        let ghost digits = s.spec_bytes().skip(7);
        let mut value: usize = 0;
        let mut bad = false;
        let mut k: usize = 7;
        proof {
            assert(digits.take(0) =~= Seq::<u8>::empty());
        }
        while k < b.len()
            invariant
                7 <= k <= b@.len(),
                b@ == s.spec_bytes(),
                digits == s.spec_bytes().skip(7),
                !bad ==> value == dec_value(digits.take(k - 7)),
                !bad ==> forall|j: int| 0 <= j < k - 7 ==> is_digit(digits[j]),
                bad ==> spec_worker_offset(digits) == 0,
            decreases b@.len() - k,
        {
            let c = b[k];
            proof {
                assert(digits[k - 7] == b@[k as int]);
            }
            if !bad {
                if c < 48 || c > 57 {
                    proof {
                        assert(!is_digit(digits[k - 7]));
                        assert(!all_digits(digits));
                    }
                    bad = true;
                } else {
                    let d = (c - 48) as usize;
                    if value > (usize::MAX - d) / 10 {
                        proof {
                            assert(all_digits(digits.take(k - 7 + 1))) by {
                                assert(forall|j: int| 0 <= j < k - 7 + 1 ==> digits.take(
                                    k - 7 + 1,
                                )[j] == digits[j]);
                            }
                            assert(digits.take(k - 7 + 1).drop_last() =~= digits.take(k - 7));
                            assert(digits.take(k - 7 + 1).last() == digits[k - 7]);
                            let q = (usize::MAX - d) as int / 10;
                            assert((usize::MAX - d) as int == 10 * q + (usize::MAX - d) as int
                                % 10);
                            assert(dec_value(digits.take(k - 7 + 1)) > usize::MAX);
                            lemma_dec_value_grows(digits, k - 7 + 1);
                            if all_digits(digits) {
                                assert(dec_value(digits) > usize::MAX);
                            }
                            assert(spec_worker_offset(digits) == 0);
                        }
                        bad = true;
                    } else {
                        value = value * 10 + d;
                        proof {
                            assert(digits.take(k - 7 + 1).drop_last() =~= digits.take(k - 7));
                            assert(digits.take(k - 7 + 1).last() == digits[k - 7]);
                        }
                    }
                }
            }
            k = k + 1;
        }
        let offset = if bad || b.len() == 7 {
            0
        } else {
            proof {
                assert(digits.take(b@.len() - 7) =~= digits);
                if digits.len() > 0 {
                    assert(is_digit(digits[0]));
                }
            }
            value
        };
        proof {
            if !bad && b@.len() > 7 {
                assert(all_digits(digits));
                assert(offset == spec_worker_offset(digits));
            }
            if b@.len() == 7 {
                assert(digits.len() == 0);
                assert(spec_worker_offset(digits) == 0);
            }
        }
        if offset < self.workers.len() {
            Some(ObjectHandle::new::<1>(offset as u16))
        } else {
            None
        }
    }
}

/// The bytes of the `worker_` prefix.
pub open spec fn worker_prefix() -> Seq<u8> {
    seq![119u8, 111u8, 114u8, 107u8, 101u8, 114u8, 95u8]
}

pub open spec fn is_digit(b: u8) -> bool {
    48 <= b <= 57
}

pub open spec fn all_digits(ds: Seq<u8>) -> bool {
    forall|i: int| 0 <= i < ds.len() ==> is_digit(#[trigger] ds[i])
}

/// The decimal value of a digit string.
pub open spec fn dec_value(ds: Seq<u8>) -> int
    decreases ds.len(),
{
    if ds.len() == 0 {
        0
    } else {
        dec_value(ds.drop_last()) * 10 + (ds.last() - 48)
    }
}

/// What the worker suffix reads as: its decimal value, or 0 when it is
/// empty, malformed or does not fit.
pub open spec fn spec_worker_offset(ds: Seq<u8>) -> int {
    if ds.len() > 0 && all_digits(ds) && dec_value(ds) <= usize::MAX {
        dec_value(ds)
    } else {
        0
    }
}

/// What `find_from_str` returns, given the worker count.
pub open spec fn spec_find_from_str(bytes: Seq<u8>, num_workers: int) -> Option<ObjectHandle> {
    if bytes.len() >= 7 && bytes.take(7) == worker_prefix() {
        let off = spec_worker_offset(bytes.skip(7));
        if off < num_workers {
            Some(ObjectHandle { id: off as u16, type_: ObjectHandle::WORKER })
        } else {
            None
        }
    } else {
        None
    }
}

proof fn lemma_dec_value_nonneg(ds: Seq<u8>)
    requires
        all_digits(ds),
    ensures
        dec_value(ds) >= 0,
    decreases ds.len(),
{
    if ds.len() > 0 {
        assert(all_digits(ds.drop_last()));
        lemma_dec_value_nonneg(ds.drop_last());
    }
}

/// Once a digit prefix overflows, every longer prefix reads at least as
/// large, so the whole string overflows too.
proof fn lemma_dec_value_grows(ds: Seq<u8>, i: int)
    requires
        0 <= i <= ds.len(),
        all_digits(ds.take(i)),
    ensures
        dec_value(ds) >= dec_value(ds.take(i)) || !all_digits(ds),
    decreases ds.len() - i,
{
    if i < ds.len() {
        if all_digits(ds) {
            assert(all_digits(ds.take(i + 1))) by {
                assert(forall|j: int| 0 <= j < i + 1 ==> ds.take(i + 1)[j] == ds[j]);
            }
            lemma_dec_value_grows(ds, i + 1);
            assert(ds.take(i + 1).drop_last() =~= ds.take(i));
            assert(ds.take(i + 1).last() == ds[i]);
            lemma_dec_value_nonneg(ds.take(i));
            assert(dec_value(ds.take(i + 1)) == dec_value(ds.take(i)) * 10 + (ds[i] - 48));
            assert(dec_value(ds.take(i + 1)) >= dec_value(ds.take(i)));
        }
    } else {
        assert(ds.take(i) =~= ds);
    }
}

/// Index of the first `sep` in `s`, or the length if there is none.
pub open spec fn first_sep(s: Seq<char>, sep: char) -> int
    decreases s.len(),
{
    if s.len() == 0 {
        0
    } else if s[0] == sep {
        0
    } else {
        1 + first_sep(s.skip(1), sep)
    }
}

/// `s` split on `sep`: the pieces between separators, in order. Splitting
/// never yields an empty list; an empty string splits to one empty piece.
pub open spec fn spec_split(s: Seq<char>, sep: char) -> Seq<Seq<char>>
    decreases s.len(),
{
    let i = first_sep(s, sep);
    if i < 0 || i >= s.len() {
        seq![s]
    } else {
        seq![s.take(i)] + spec_split(s.skip(i + 1), sep)
    }
}

proof fn lemma_first_sep_bound(s: Seq<char>, sep: char)
    ensures
        0 <= first_sep(s, sep) <= s.len(),
        forall|i: int| 0 <= i < first_sep(s, sep) ==> s[i] != sep,
        first_sep(s, sep) < s.len() ==> s[first_sep(s, sep)] == sep,
    decreases s.len(),
{
    if s.len() > 0 && s[0] != sep {
        lemma_first_sep_bound(s.skip(1), sep);
        assert(forall|i: int| 0 <= i < s.skip(1).len() ==> s.skip(1)[i] == s[i + 1]);
        let f = first_sep(s, sep);
        assert(f == 1 + first_sep(s.skip(1), sep));
        assert forall|i: int| 0 <= i < f implies s[i] != sep by {
            if i > 0 {
                assert(s.skip(1)[i - 1] != sep);
            }
        }
        if f < s.len() {
            assert(s[f] == s.skip(1)[f - 1]);
        }
    }
}

/// A separator at `k`, with none before it, is the first one.
proof fn lemma_first_sep_at(s: Seq<char>, sep: char, k: int)
    requires
        0 <= k < s.len(),
        s[k] == sep,
        forall|i: int| 0 <= i < k ==> s[i] != sep,
    ensures
        first_sep(s, sep) == k,
    decreases k,
{
    if k > 0 {
        assert(forall|i: int| 0 <= i < s.skip(1).len() ==> s.skip(1)[i] == s[i + 1]);
        lemma_first_sep_at(s.skip(1), sep, k - 1);
    }
}

/// A separator-free string is one piece.
proof fn lemma_first_sep_none(s: Seq<char>, sep: char)
    requires
        forall|i: int| 0 <= i < s.len() ==> s[i] != sep,
    ensures
        first_sep(s, sep) == s.len(),
    decreases s.len(),
{
    if s.len() > 0 {
        assert(forall|i: int| 0 <= i < s.skip(1).len() ==> s.skip(1)[i] == s[i + 1]);
        lemma_first_sep_none(s.skip(1), sep);
    }
}

/// Splits `s` on `sep` into owned pieces.
fn split_str(s: &str, sep: char) -> (r: Vec<String>)
    ensures
        r@.map_values(|p: String| p@) == spec_split(s@, sep),
{
    let mut comps: Vec<String> = Vec::new();
    let n = s.unicode_len();
    let mut start: usize = 0;
    let mut i: usize = 0;
    proof {
        assert(s@.skip(0) =~= s@);
        assert(comps@.map_values(|p: String| p@) =~= Seq::<Seq<char>>::empty());
        assert(spec_split(s@, sep) =~= comps@.map_values(|p: String| p@) + spec_split(
            s@.skip(0),
            sep,
        ));
    }
    while i < n
        invariant
            start <= i <= n,
            n == s@.len(),
            forall|k: int| start <= k < i ==> s@[k] != sep,
            spec_split(s@, sep) =~= comps@.map_values(|p: String| p@) + spec_split(
                s@.skip(start as int),
                sep,
            ),
        decreases n - i,
    {
        if s.get_char(i) == sep {
            let piece = s.substring_char(start, i).to_owned();
            let ghost pre = comps@;
            comps.push(piece);
            proof {
                let tail = s@.skip(start as int);
                assert(forall|k: int| 0 <= k < tail.len() ==> tail[k] == s@[start + k]);
                lemma_first_sep_at(tail, sep, i - start);
                assert(tail.take(i - start) =~= s@.subrange(start as int, i as int));
                assert(tail.skip(i - start + 1) =~= s@.skip(i + 1));
                assert(spec_split(tail, sep) == seq![s@.subrange(start as int, i as int)]
                    + spec_split(s@.skip(i + 1), sep));
                assert(comps@.map_values(|p: String| p@) =~= pre.map_values(|p: String| p@)
                    + seq![s@.subrange(start as int, i as int)]);
                assert(spec_split(s@, sep) =~= comps@.map_values(|p: String| p@) + spec_split(
                    s@.skip(i + 1),
                    sep,
                ));
            }
            start = i + 1;
        }
        i = i + 1;
    }
    let piece = s.substring_char(start, n).to_owned();
    let ghost pre = comps@;
    comps.push(piece);
    proof {
        let tail = s@.skip(start as int);
        assert(forall|k: int| 0 <= k < tail.len() ==> tail[k] == s@[start + k]);
        lemma_first_sep_none(tail, sep);
        assert(spec_split(tail, sep) == seq![tail]);
        assert(tail =~= s@.subrange(start as int, n as int));
        assert(comps@.map_values(|p: String| p@) =~= pre.map_values(|p: String| p@) + seq![tail]);
        assert(comps@.map_values(|p: String| p@) =~= spec_split(s@, sep));
    }
    comps
}

/// An owned path: a borrowed string with path accessors.
pub struct PathBuf<'a> {
    inner: &'a str,
}

impl<'a> PathBuf<'a> {
    pub closed spec fn spec_inner(&self) -> Seq<char> {
        self.inner@
    }

    pub fn from_str(inner: &'a str) -> (r: Self)
        ensures
            r.spec_inner() == inner@,
    {
        PathBuf { inner }
    }

    pub fn path(&'a self) -> (r: Path<'a>)
        ensures
            r.spec_inner() == self.spec_inner(),
    {
        Path { inner: self.inner }
    }
}

/// A view over a path's text.
pub struct Path<'a> {
    inner: &'a str,
}

impl<'a> Path<'a> {
    pub closed spec fn spec_inner(&self) -> Seq<char> {
        self.inner@
    }

    /// The current directory.
    pub fn new() -> (r: Self)
        ensures
            r.spec_inner() == "."@,
    {
        Path { inner: "." }
    }

    /// The path's pieces between the slashes.
    pub fn components(&self) -> (r: Vec<String>)
        ensures
            r@.map_values(|p: String| p@) == spec_split(self.spec_inner(), '/'),
    {
        split_str(self.inner, '/')
    }

    /// The last component's leading piece before any dot.
    pub fn file_name(&self) -> (r: Option<String>)
        ensures
            ({
                let comps = spec_split(self.spec_inner(), '/');
                r matches Some(n) && n@ == spec_split(comps.last(), '.')[0]
            }),
    {
        let comps = self.components();
        let last = &comps[comps.len() - 1];
        proof {
            lemma_split_nonempty(self.spec_inner(), '/');
            assert(comps@.map_values(|p: String| p@).last() == last@);
            lemma_split_nonempty(last@, '.');
        }
        let parts = split_str(last.as_str(), '.');
        let first = parts[0].clone();
        proof {
            assert(parts@.map_values(|p: String| p@)[0] == first@);
        }
        Some(first)
    }

    /// The last component's trailing piece after its last dot.
    pub fn extension(&self) -> (r: Option<String>)
        ensures
            ({
                let comps = spec_split(self.spec_inner(), '/');
                r matches Some(n) && n@ == spec_split(comps.last(), '.').last()
            }),
    {
        let comps = self.components();
        let last = &comps[comps.len() - 1];
        proof {
            lemma_split_nonempty(self.spec_inner(), '/');
            assert(comps@.map_values(|p: String| p@).last() == last@);
            lemma_split_nonempty(last@, '.');
        }
        let parts = split_str(last.as_str(), '.');
        let tail = parts[parts.len() - 1].clone();
        proof {
            assert(parts@.map_values(|p: String| p@).last() == tail@);
        }
        Some(tail)
    }
}

/// A split always yields at least one piece.
proof fn lemma_split_nonempty(s: Seq<char>, sep: char)
    ensures
        spec_split(s, sep).len() >= 1,
    decreases s.len(),
{
    lemma_first_sep_bound(s, sep);
}

} // verus!
