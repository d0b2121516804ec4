//! Device tree physical memory scanning.
//!
//! The memory scanner reads the root node's cell configuration and the `reg`
//! property of every node whose `device_type` is `memory`, recording each
//! memory range in order.

use vstd::prelude::*;
use vstd::string::StringSliceAdditionalSpecFns;
use crate::support::dtb::{
    be_value, bytes_eq, cell_config, cells_value, get_cell_config, lemma_be_value_bound, nul_terminated, read_cells,
    read_string, DtbError, DtbNode, DtbProperty,
};
use crate::support::range::Range;

verus! {

/// Maximum number of memory ranges that can be stored in a configuration.
pub const MAX_MEM_RANGES: usize = 64;

/// The ranges after recording one more (dropped when the list is full).
pub open spec fn insert_spec(ranges: Seq<Range>, r: Range) -> Seq<Range> {
    if ranges.len() >= MAX_MEM_RANGES {
        ranges
    } else {
        ranges.push(r)
    }
}

/// What the properties of a device node say, read in order: its last
/// `device_type` and `reg` values and its cell configuration.
pub type DeviceProps = (Option<Seq<u8>>, Option<Seq<u8>>, u32, u32);

/// The device properties after one more property.
pub open spec fn device_step(st: DeviceProps, p: DtbProperty) -> Result<DeviceProps, DtbError> {
    if p.name@ == "device_type".spec_bytes() {
        Ok((Some(p.value@), st.1, st.2, st.3))
    } else if p.name@ == "reg".spec_bytes() {
        Ok((st.0, Some(p.value@), st.2, st.3))
    } else if p.name@ == "#address-cells".spec_bytes() {
        match cells_value(p.value@, 0, 1) {
            None => Err(DtbError::InvalidDtb),
            Some(v) => Ok((st.0, st.1, v as u32, st.3)),
        }
    } else if p.name@ == "#size-cells".spec_bytes() {
        match cells_value(p.value@, 0, 1) {
            None => Err(DtbError::InvalidDtb),
            Some(v) => Ok((st.0, st.1, st.2, v as u32)),
        }
    } else {
        Ok(st)
    }
}

/// The device properties of a node, starting from the inherited cells.
pub open spec fn device_props(props: Seq<DtbProperty>, ac: u32, sc: u32) -> Result<DeviceProps, DtbError>
    decreases props.len(),
{
    if props.len() == 0 {
        Ok((None, None, ac, sc))
    } else {
        match device_props(props.drop_last(), ac, sc) {
            Err(e) => Err(e),
            Ok(st) => device_step(st, props.last()),
        }
    }
}

/// The range recorded for a `reg` entry of base `base` and size `size`, or
/// what happens to it. A peripheral scanner (`clamp` false) fails on an
/// entry that does not fit in addresses. A clamping scanner skips an entry
/// whose base is beyond the address space (`Ok(None)`) and clamps its size to
/// the end of the address space.
pub open spec fn reg_entry(base: int, size: int, clamp: bool) -> Result<Option<Range>, DtbError> {
    if clamp {
        if base > usize::MAX {
            Ok(None)
        } else {
            let max_size = usize::MAX - base;
            Ok(Some(Range { base: base as usize, size: (if size < max_size { size } else { max_size }) as usize }))
        }
    } else if base <= usize::MAX && size <= usize::MAX {
        Ok(Some(Range { base: base as usize, size: size as usize }))
    } else {
        Err(DtbError::InvalidDtb)
    }
}

/// The ranges after recording the first `n` entries of a `reg` value.
pub open spec fn reg_fold(v: Seq<u8>, ac: u32, sc: u32, n: nat, ranges: Seq<Range>, clamp: bool) -> Result<Seq<Range>, DtbError>
    decreases n,
{
    if n == 0 {
        Ok(ranges)
    } else {
        match reg_fold(v, ac, sc, (n - 1) as nat, ranges, clamp) {
            Err(e) => Err(e),
            Ok(prev) => {
                let off = (n - 1) * 4 * (ac + sc);
                match (cells_value(v, off, ac), cells_value(v, off + 4 * ac, sc)) {
                    (Some(base), Some(size)) => match reg_entry(base as int, size as int, clamp) {
                        Err(e) => Err(e),
                        Ok(None) => Ok(prev),
                        Ok(Some(r)) => Ok(insert_spec(prev, r)),
                    },
                    _ => Err(DtbError::InvalidDtb),
                }
            },
        }
    }
}

/// The base of entry `k` of a `reg` value of `ac` address cells and `sc`
/// size cells: the big-endian number in the entry's first `ac` cells.
pub open spec fn reg_entry_base(v: Seq<u8>, ac: u32, sc: u32, k: int) -> nat {
    be_value(v, k * (4 * (ac + sc)), (4 * ac) as nat)
}

/// The size of entry `k` of a `reg` value: the big-endian number in the `sc`
/// cells right after the entry's `ac` address cells.
pub open spec fn reg_entry_size(v: Seq<u8>, ac: u32, sc: u32, k: int) -> nat {
    be_value(v, k * (4 * (ac + sc)) + 4 * ac, (4 * sc) as nat)
}

/// Reading the first `n` entries of a `reg` value records, in order after
/// the ranges already found, one range per entry: its base is the number in
/// the entry's address cells and its size the number in the size cells that
/// follow them, for any numbers of address and size cells. A clamping scanner
/// (whose entries here all start within the address space) cuts the size at
/// the end of the address space.
pub proof fn law_reg_entries(v: Seq<u8>, ac: u32, sc: u32, n: nat, ranges: Seq<Range>, clamp: bool)
    requires
        reg_fold(v, ac, sc, n, ranges, clamp) is Ok,
        ranges.len() + n <= MAX_MEM_RANGES,
        clamp ==> forall|k: int| 0 <= k < n ==> #[trigger] reg_entry_base(v, ac, sc, k) <= usize::MAX,
    ensures
        ({
            let res = reg_fold(v, ac, sc, n, ranges, clamp)->Ok_0;
            &&& res.len() == ranges.len() + n
            &&& forall|i: int| 0 <= i < ranges.len() ==> #[trigger] res[i] == ranges[i]
            &&& forall|i: int|
                ranges.len() <= i < ranges.len() + n ==> {
                    let k = i - ranges.len();
                    let b = reg_entry_base(v, ac, sc, k);
                    let z = reg_entry_size(v, ac, sc, k);
                    &&& (#[trigger] res[i]).base as int == b
                    &&& res[i].size as int == (if clamp && z > usize::MAX - b {
                        usize::MAX - b
                    } else {
                        z as int
                    })
                }
        }),
    decreases n,
{
    if n > 0 {
        let k = n - 1;
        assert(clamp ==> forall|j: int| 0 <= j < k ==> #[trigger] reg_entry_base(v, ac, sc, j) <= usize::MAX) by {
            if clamp {
                assert forall|j: int| 0 <= j < k implies #[trigger] reg_entry_base(v, ac, sc, j) <= usize::MAX by {
                    assert(reg_entry_base(v, ac, sc, j) <= usize::MAX);
                }
            }
        }
        law_reg_entries(v, ac, sc, k as nat, ranges, clamp);
        let prev = reg_fold(v, ac, sc, k as nat, ranges, clamp)->Ok_0;
        let off = k * 4 * (ac + sc);
        assert(off == k * (4 * (ac + sc))) by (nonlinear_arith)
            requires
                off == k * 4 * (ac + sc),
        ;
        assert(off >= 0) by (nonlinear_arith)
            requires k >= 0, off == k * 4 * (ac + sc);
        let bo = cells_value(v, off, ac);
        let so = cells_value(v, off + 4 * ac, sc);
        assert(bo is Some && so is Some);
        lemma_be_value_bound(v, off, (4 * ac) as nat);
        lemma_be_value_bound(v, off + 4 * ac, (4 * sc) as nat);
        vstd::arithmetic::power2::lemma2_to64();
        if ac == 2 {
            assert(vstd::arithmetic::power2::pow2((8 * (4 * ac)) as nat) == 0x1_0000_0000_0000_0000);
        } else if ac == 1 {
            assert(vstd::arithmetic::power2::pow2((8 * (4 * ac)) as nat) == 0x1_0000_0000);
        }
        if sc == 2 {
            assert(vstd::arithmetic::power2::pow2((8 * (4 * sc)) as nat) == 0x1_0000_0000_0000_0000);
        } else if sc == 1 {
            assert(vstd::arithmetic::power2::pow2((8 * (4 * sc)) as nat) == 0x1_0000_0000);
        }
        assert(bo->0 as int == reg_entry_base(v, ac, sc, k));
        assert(so->0 as int == reg_entry_size(v, ac, sc, k));
        if clamp {
            assert(reg_entry_base(v, ac, sc, k) <= usize::MAX);
        }
    }
}

/// The first `n` entries of a `reg` value are read without error when they
/// lie within the value, numbers span at most two cells, and (for a scanner
/// that does not clamp) every base and size fits in an address.
proof fn lemma_reg_fold_ok(v: Seq<u8>, ac: u32, sc: u32, n: nat, ranges: Seq<Range>, clamp: bool)
    requires
        ac <= 2,
        sc <= 2,
        n * (4 * (ac + sc)) <= v.len(),
        !clamp ==> forall|k: int|
            0 <= k < n ==> #[trigger] reg_entry_base(v, ac, sc, k) <= usize::MAX && reg_entry_size(v, ac, sc, k) <= usize::MAX,
    ensures
        reg_fold(v, ac, sc, n, ranges, clamp) is Ok,
    decreases n,
{
    if n > 0 {
        let k = n - 1;
        let rs = 4 * (ac + sc);
        assert(k * rs + rs == n * rs && k * rs >= 0) by (nonlinear_arith)
            requires
                n == k + 1,
                k >= 0,
                rs >= 0,
        ;
        lemma_reg_fold_ok(v, ac, sc, k as nat, ranges, clamp);
        let off = k * 4 * (ac + sc);
        assert(off == k * rs) by (nonlinear_arith)
            requires
                off == k * 4 * (ac + sc),
                rs == 4 * (ac + sc),
        ;
        lemma_be_value_bound(v, off, (4 * ac) as nat);
        lemma_be_value_bound(v, off + 4 * ac, (4 * sc) as nat);
        vstd::arithmetic::power2::lemma2_to64();
        if ac == 2 {
            assert(vstd::arithmetic::power2::pow2((8 * (4 * ac)) as nat) == 0x1_0000_0000_0000_0000);
        } else if ac == 1 {
            assert(vstd::arithmetic::power2::pow2((8 * (4 * ac)) as nat) == 0x1_0000_0000);
        }
        if sc == 2 {
            assert(vstd::arithmetic::power2::pow2((8 * (4 * sc)) as nat) == 0x1_0000_0000_0000_0000);
        } else if sc == 1 {
            assert(vstd::arithmetic::power2::pow2((8 * (4 * sc)) as nat) == 0x1_0000_0000);
        }
        if !clamp {
            assert(reg_entry_base(v, ac, sc, k) <= usize::MAX);
        }
    }
}

/// A memory node's `reg` value of a positive whole number of entries, with
/// numbers of at most two cells, is read entry by entry: after the ranges
/// already found come, in order, one range per entry, based at the number in
/// the entry's address cells and sized by the number in the size cells after
/// them (cut at the end of the address space by a clamping scanner, whose
/// entries here all start within it; a scanner that does not clamp reads
/// entries whose numbers fit in addresses).
pub proof fn law_memory_reg(v: Seq<u8>, ac: u32, sc: u32, ranges: Seq<Range>, clamp: bool)
    requires
        ac <= 2,
        sc <= 2,
        ac + sc > 0,
        v.len() > 0,
        v.len() as int % (4 * (ac + sc)) == 0,
        ranges.len() + (v.len() as int) / (4 * (ac + sc)) <= MAX_MEM_RANGES,
        forall|k: int|
            0 <= k < (v.len() as int) / (4 * (ac + sc)) ==> #[trigger] reg_entry_base(v, ac, sc, k) <= usize::MAX && (!clamp
                ==> reg_entry_size(v, ac, sc, k) <= usize::MAX),
    ensures
        memory_reg_spec(v, ac, sc, ranges, clamp) is Ok,
        ({
            let res = memory_reg_spec(v, ac, sc, ranges, clamp)->Ok_0;
            let n = (v.len() as int) / (4 * (ac + sc));
            &&& res.len() == ranges.len() + n
            &&& forall|i: int| 0 <= i < ranges.len() ==> #[trigger] res[i] == ranges[i]
            &&& forall|i: int|
                ranges.len() <= i < ranges.len() + n ==> {
                    let k = i - ranges.len();
                    let b = reg_entry_base(v, ac, sc, k);
                    let z = reg_entry_size(v, ac, sc, k);
                    &&& (#[trigger] res[i]).base as int == b
                    &&& res[i].size as int == (if clamp && z > usize::MAX - b {
                        usize::MAX - b
                    } else {
                        z as int
                    })
                }
        }),
{
    let rs = 4 * (ac + sc);
    let n = (v.len() as int) / rs;
    assert(n * rs == v.len()) by (nonlinear_arith)
        requires
            rs > 0,
            n == (v.len() as int) / rs,
            v.len() as int % rs == 0,
    ;
    assert(v.len() >= rs) by (nonlinear_arith)
        requires
            rs > 0,
            v.len() > 0,
            v.len() as int % rs == 0,
    ;
    lemma_reg_fold_ok(v, ac, sc, n as nat, ranges, clamp);
    law_reg_entries(v, ac, sc, n as nat, ranges, clamp);
}

/// The ranges after recording a `reg` value: a positive whole number of
/// entries of `4 * (ac + sc)` bytes each.
pub open spec fn memory_reg_spec(v: Seq<u8>, ac: u32, sc: u32, ranges: Seq<Range>, clamp: bool) -> Result<Seq<Range>, DtbError> {
    let rs = 4 * (ac + sc);
    let len = v.len() as int;
    if rs == 0 || len == 0 || len < rs || len % rs != 0 {
        Err(DtbError::InvalidDtb)
    } else {
        reg_fold(v, ac, sc, (len / rs) as nat, ranges, clamp)
    }
}

/// The ranges after scanning a device node: a memory node records its `reg`
/// ranges, any other node is skipped.
pub open spec fn device_node_spec(props: Seq<DtbProperty>, ac: u32, sc: u32, ranges: Seq<Range>, clamp: bool) -> Result<Seq<Range>, DtbError> {
    match device_props(props, ac, sc) {
        Err(e) => Err(e),
        Ok(st) => {
            if st.0 is None || nul_terminated(st.0->0) != Some("memory".spec_bytes()) || st.1 is None {
                Ok(ranges)
            } else {
                memory_reg_spec(st.1->0, st.2, st.3, ranges, clamp)
            }
        },
    }
}

/// Scans for DTB memory nodes.
pub struct DtbMemoryScanner {
    ranges: Vec<Range>,
    addr_cells: u32,
    size_cells: u32,
    clamp: bool,
}

impl DtbMemoryScanner {
    /// The memory ranges found so far, in order.
    pub closed spec fn found(&self) -> Seq<Range> {
        self.ranges@
    }

    /// The root node's `#address-cells`.
    pub closed spec fn root_addr_cells(&self) -> u32 {
        self.addr_cells
    }

    /// The root node's `#size-cells`.
    pub closed spec fn root_size_cells(&self) -> u32 {
        self.size_cells
    }

    /// Whether the scanner skips entries beyond the address space and clamps
    /// sizes to it, rather than failing on them.
    pub closed spec fn clamps(&self) -> bool {
        self.clamp
    }

    /// Constructs a new scanner with no range and no cell configuration,
    /// failing on `reg` entries beyond the address space.
    pub fn new() -> (r: Self)
        ensures
            r.found() == Seq::<Range>::empty(),
            r.root_addr_cells() == 0,
            r.root_size_cells() == 0,
            !r.clamps(),
    {
        DtbMemoryScanner { ranges: Vec::new(), addr_cells: 0, size_cells: 0, clamp: false }
    }

    /// Constructs a new scanner with no range and no cell configuration,
    /// skipping `reg` entries whose base is beyond the address space and
    /// clamping sizes to the end of the address space.
    pub fn new_clamping() -> (r: Self)
        ensures
            r.found() == Seq::<Range>::empty(),
            r.root_addr_cells() == 0,
            r.root_size_cells() == 0,
            r.clamps(),
    {
        DtbMemoryScanner { ranges: Vec::new(), addr_cells: 0, size_cells: 0, clamp: true }
    }

    /// Returns the memory ranges found.
    pub fn into_ranges(self) -> (r: Vec<Range>)
        ensures
            r@ == self.found(),
    {
        self.ranges
    }

    /// Reads the root cell configuration.
    pub fn scan_root_node(&mut self, props: &[DtbProperty]) -> (r: Result<(), DtbError>)
        ensures
            final(self).found() == old(self).found(),
            final(self).clamps() == old(self).clamps(),
            match cell_config(props@, old(self).root_addr_cells(), old(self).root_size_cells()) {
                Err(e) => r == Err::<(), DtbError>(e) && *final(self) == *old(self),
                Ok(c) => r is Ok && final(self).root_addr_cells() == c.0 && final(self).root_size_cells() == c.1,
            },
    {
        match get_cell_config(props, self.addr_cells, self.size_cells) {
            Err(e) => Err(e),
            Ok((a, s)) => {
                self.addr_cells = a;
                self.size_cells = s;
                Ok(())
            },
        }
    }

    /// Checks that a `device_type` value is `memory`.
    fn check_device_type(&self, value: &[u8]) -> (r: bool)
        ensures
            r == (nul_terminated(value@) == Some("memory".spec_bytes())),
    {
        match read_string(value) {
            Some(name) => bytes_eq(name.as_slice(), "memory".as_bytes()),
            None => false,
        }
    }

    /// Records the ranges of a memory node's `reg` value.
    fn read_memory_reg(&mut self, value: &[u8], addr_cells: u32, size_cells: u32) -> (r: Result<bool, DtbError>)
        ensures
            final(self).root_addr_cells() == old(self).root_addr_cells(),
            final(self).root_size_cells() == old(self).root_size_cells(),
            final(self).clamps() == old(self).clamps(),
            match memory_reg_spec(value@, addr_cells, size_cells, old(self).found(), old(self).clamps()) {
                Err(e) => r == Err::<bool, DtbError>(e),
                Ok(rs) => r == Ok::<bool, DtbError>(true) && final(self).found() == rs,
            },
    {
        let rs: u64 = 4 * (addr_cells as u64 + size_cells as u64);
        let len = value.len() as u64;
        if rs == 0 || len == 0 || len < rs || len % rs != 0 {
            return Err(DtbError::InvalidDtb);
        }
        let n = len / rs;
        let ghost r0 = self.ranges@;
        let vlen = value.len();
        let mut k: u64 = 0;
        while k < n
            invariant
                vlen == value@.len(),
                len == vlen,
                rs == 4 * (addr_cells + size_cells),
                rs > 0,
                n == (len as int) / (rs as int),
                (len as int) % (rs as int) == 0,
                k <= n,
                r0 == old(self).found(),
                self.addr_cells == old(self).root_addr_cells(),
                self.size_cells == old(self).root_size_cells(),
                reg_fold(value@, addr_cells, size_cells, k as nat, r0, self.clamp) == Ok::<Seq<Range>, DtbError>(self.ranges@),
                self.clamp == old(self).clamps(),
            decreases n - k,
        {
            proof {
                vstd::arithmetic::div_mod::lemma_fundamental_div_mod(len as int, rs as int);
                assert((k + 1) * rs <= n * rs) by (nonlinear_arith)
                    requires k < n, rs > 0;
                assert(k * rs + rs == (k + 1) * rs) by (nonlinear_arith);
                assert(k * rs == k * 4 * (addr_cells + size_cells)) by (nonlinear_arith)
                    requires rs == 4 * (addr_cells + size_cells);
            }
            if addr_cells > 2 || size_cells > 2 {
                proof {
                    assert(reg_fold(value@, addr_cells, size_cells, (k + 1) as nat, r0, self.clamp) is Err);
                    lemma_reg_err(value@, addr_cells, size_cells, n as nat, (k + 1) as nat, r0, self.clamp);
                }
                return Err(DtbError::InvalidDtb);
            }
            let off = (k * rs) as usize;
            let base = read_cells(value, off, addr_cells).unwrap();
            let size = read_cells(value, off + 4 * (addr_cells as usize), size_cells).unwrap();
            let umax = usize::MAX as u64;
            if self.clamp {
                // A base beyond the address space is skipped; a size running
                // past its end is clamped.
                if base <= umax {
                    let max_size = umax - base;
                    let clamped = if size < max_size {
                        size
                    } else {
                        max_size
                    };
                    if self.ranges.len() < MAX_MEM_RANGES {
                        self.ranges.push(Range { base: base as usize, size: clamped as usize });
                    }
                }
            } else {
                if base > umax || size > umax {
                    proof {
                        assert(reg_fold(value@, addr_cells, size_cells, (k + 1) as nat, r0, self.clamp) is Err);
                        lemma_reg_err(value@, addr_cells, size_cells, n as nat, (k + 1) as nat, r0, self.clamp);
                    }
                    return Err(DtbError::InvalidDtb);
                }
                if self.ranges.len() < MAX_MEM_RANGES {
                    self.ranges.push(Range { base: base as usize, size: size as usize });
                }
            }
            k += 1;
        }
        Ok(true)
    }

    /// Scans a device node: if the device is a memory device, adds its memory
    /// ranges.
    pub fn scan_device_node(&mut self, props: &[DtbProperty]) -> (r: Result<bool, DtbError>)
        ensures
            final(self).root_addr_cells() == old(self).root_addr_cells(),
            final(self).root_size_cells() == old(self).root_size_cells(),
            final(self).clamps() == old(self).clamps(),
            match device_node_spec(props@, old(self).root_addr_cells(), old(self).root_size_cells(), old(self).found(), old(self).clamps()) {
                Err(e) => r == Err::<bool, DtbError>(e),
                Ok(rs) => r == Ok::<bool, DtbError>(true) && final(self).found() == rs,
            },
    {
        let mut dev_type: Option<usize> = None;
        let mut reg: Option<usize> = None;
        let mut addr_cells = self.addr_cells;
        let mut size_cells = self.size_cells;
        let mut i: usize = 0;
        proof {
            assert(props@.subrange(0, 0) =~= Seq::<DtbProperty>::empty());
        }
        while i < props.len()
            invariant
                i <= props@.len(),
                *self == *old(self),
                dev_type matches Some(d) ==> d < i,
                reg matches Some(g) ==> g < i,
                device_props(props@.subrange(0, i as int), self.root_addr_cells(), self.root_size_cells())
                    == Ok::<DeviceProps, DtbError>(
                    (
                        match dev_type {
                            None => None,
                            Some(d) => Some(props@[d as int].value@),
                        },
                        match reg {
                            None => None,
                            Some(g) => Some(props@[g as int].value@),
                        },
                        addr_cells,
                        size_cells,
                    ),
                ),
            decreases props@.len() - i,
        {
            let p = &props[i];
            proof {
                assert(props@.subrange(0, i + 1).drop_last() =~= props@.subrange(0, i as int));
                assert(props@.subrange(0, i + 1).last() == props@[i as int]);
            }
            let name = p.name.as_slice();
            if bytes_eq(name, "device_type".as_bytes()) {
                dev_type = Some(i);
            } else if bytes_eq(name, "reg".as_bytes()) {
                reg = Some(i);
            } else if bytes_eq(name, "#address-cells".as_bytes()) {
                match read_cells(p.value.as_slice(), 0, 1) {
                    None => {
                        proof {
                            lemma_device_err(props@, self.root_addr_cells(), self.root_size_cells(), i + 1);
                        }
                        return Err(DtbError::InvalidDtb);
                    },
                    Some(v) => {
                        addr_cells = v as u32;
                    },
                }
            } else if bytes_eq(name, "#size-cells".as_bytes()) {
                match read_cells(p.value.as_slice(), 0, 1) {
                    None => {
                        proof {
                            lemma_device_err(props@, self.root_addr_cells(), self.root_size_cells(), i + 1);
                        }
                        return Err(DtbError::InvalidDtb);
                    },
                    Some(v) => {
                        size_cells = v as u32;
                    },
                }
            }
            i += 1;
        }
        proof {
            assert(props@.subrange(0, props@.len() as int) =~= props@);
        }
        let is_memory = match dev_type {
            None => false,
            Some(d) => self.check_device_type(props[d].value.as_slice()),
        };
        if !is_memory {
            return Ok(true);
        }
        match reg {
            None => Ok(true),
            Some(g) => self.read_memory_reg(props[g].value.as_slice(), addr_cells, size_cells),
        }
    }

    /// Scans a node: the root node (empty name) gives the cell
    /// configuration, any other node may be a memory node. Returns whether
    /// scanning continues.
    pub fn scan_node(&mut self, name: &[u8], props: &[DtbProperty]) -> (r: Result<bool, DtbError>)
        ensures
            final(self).clamps() == old(self).clamps(),
            name@.len() == 0 ==> final(self).found() == old(self).found() && match cell_config(
                props@,
                old(self).root_addr_cells(),
                old(self).root_size_cells(),
            ) {
                Err(e) => r == Err::<bool, DtbError>(e),
                Ok(c) => r == Ok::<bool, DtbError>(true) && final(self).root_addr_cells() == c.0
                    && final(self).root_size_cells() == c.1,
            },
            name@.len() != 0 ==> final(self).root_addr_cells() == old(self).root_addr_cells()
                && final(self).root_size_cells() == old(self).root_size_cells() && match device_node_spec(
                props@,
                old(self).root_addr_cells(),
                old(self).root_size_cells(),
                old(self).found(),
                old(self).clamps(),
            ) {
                Err(e) => r == Err::<bool, DtbError>(e),
                Ok(rs) => r == Ok::<bool, DtbError>(true) && final(self).found() == rs,
            },
    {
        if name.len() == 0 {
            match self.scan_root_node(props) {
                Err(e) => Err(e),
                Ok(()) => Ok(true),
            }
        } else {
            self.scan_device_node(props)
        }
    }
}

/// The scanner's state (root cell configuration and ranges found) after
/// scanning the nodes in tree order, starting from a new scanner.
pub open spec fn memory_scan_spec(nodes: Seq<DtbNode>, clamp: bool) -> Result<(u32, u32, Seq<Range>), DtbError>
    decreases nodes.len(),
{
    if nodes.len() == 0 {
        Ok((0u32, 0u32, Seq::empty()))
    } else {
        match memory_scan_spec(nodes.drop_last(), clamp) {
            Err(e) => Err(e),
            Ok(st) => {
                let n = nodes.last();
                if n.name@.len() == 0 {
                    match cell_config(n.properties@, st.0, st.1) {
                        Err(e) => Err(e),
                        Ok(c) => Ok((c.0, c.1, st.2)),
                    }
                } else {
                    match device_node_spec(n.properties@, st.0, st.1, st.2, clamp) {
                        Err(e) => Err(e),
                        Ok(rs) => Ok((st.0, st.1, rs)),
                    }
                }
            },
        }
    }
}

/// The ranges that are not empty, in order.
pub open spec fn nonempty_ranges(ranges: Seq<Range>) -> Seq<Range>
    decreases ranges.len(),
{
    if ranges.len() == 0 {
        ranges
    } else if ranges.last().size == 0 {
        nonempty_ranges(ranges.drop_last())
    } else {
        nonempty_ranges(ranges.drop_last()).push(ranges.last())
    }
}

/// Trimming keeps exactly the ranges that are not empty, in their order.
pub proof fn law_nonempty_ranges(ranges: Seq<Range>)
    ensures
        nonempty_ranges(ranges) == ranges.filter(|r: Range| r.size != 0),
    decreases ranges.len(),
{
    reveal(Seq::filter);
    if ranges.len() > 0 {
        law_nonempty_ranges(ranges.drop_last());
    }
}

/// The memory layout of a device tree: the non-empty memory ranges found,
/// `None` when the tree cannot be read or holds no non-empty memory range.
pub open spec fn memory_layout_spec(nodes: Seq<DtbNode>, clamp: bool) -> Option<Seq<Range>> {
    match memory_scan_spec(nodes, clamp) {
        Err(_) => None,
        Ok(st) => if nonempty_ranges(st.2).len() == 0 {
            None
        } else {
            Some(nonempty_ranges(st.2))
        },
    }
}

pub proof fn lemma_memory_scan_err(nodes: Seq<DtbNode>, k: int, clamp: bool)
    requires
        0 <= k <= nodes.len(),
        memory_scan_spec(nodes.subrange(0, k), clamp) is Err,
    ensures
        memory_scan_spec(nodes, clamp) is Err,
    decreases nodes.len(),
{
    if k < nodes.len() {
        assert(nodes.drop_last().subrange(0, k) =~= nodes.subrange(0, k));
        lemma_memory_scan_err(nodes.drop_last(), k, clamp);
    } else {
        assert(nodes.subrange(0, k) =~= nodes);
    }
}

/// Scans the device tree nodes, in tree order, with a new scanner.
pub fn scan_memory_nodes(nodes: &[DtbNode]) -> (r: Result<Vec<Range>, DtbError>)
    ensures
        match memory_scan_spec(nodes@, false) {
            Err(_) => r is Err,
            Ok(st) => r matches Ok(v) && v@ == st.2,
        },
{
    let mut scanner = DtbMemoryScanner::new();
    let mut i: usize = 0;
    proof {
        assert(nodes@.subrange(0, 0) =~= Seq::<DtbNode>::empty());
    }
    while i < nodes.len()
        invariant
            i <= nodes@.len(),
            !scanner.clamps(),
            memory_scan_spec(nodes@.subrange(0, i as int), false) == Ok::<(u32, u32, Seq<Range>), DtbError>(
                (scanner.root_addr_cells(), scanner.root_size_cells(), scanner.found()),
            ),
        decreases nodes@.len() - i,
    {
        proof {
            assert(nodes@.subrange(0, i + 1).drop_last() =~= nodes@.subrange(0, i as int));
            assert(nodes@.subrange(0, i + 1).last() == nodes@[i as int]);
        }
        let n = &nodes[i];
        match scanner.scan_node(n.name.as_slice(), n.properties.as_slice()) {
            Err(e) => {
                proof {
                    lemma_memory_scan_err(nodes@, i + 1, false);
                }
                return Err(e);
            },
            Ok(_) => {},
        }
        i += 1;
    }
    proof {
        assert(nodes@.subrange(0, nodes@.len() as int) =~= nodes@);
    }
    Ok(scanner.into_ranges())
}

/// The non-empty ranges of a list, in order.
pub fn trim_ranges(ranges: &[Range]) -> (r: Vec<Range>)
    ensures
        r@ == nonempty_ranges(ranges@),
{
    let mut out: Vec<Range> = Vec::new();
    let mut i: usize = 0;
    proof {
        assert(ranges@.subrange(0, 0) =~= Seq::<Range>::empty());
    }
    while i < ranges.len()
        invariant
            i <= ranges@.len(),
            out@ == nonempty_ranges(ranges@.subrange(0, i as int)),
        decreases ranges@.len() - i,
    {
        proof {
            assert(ranges@.subrange(0, i + 1).drop_last() =~= ranges@.subrange(0, i as int));
            assert(ranges@.subrange(0, i + 1).last() == ranges@[i as int]);
        }
        if ranges[i].size != 0 {
            out.push(ranges[i]);
        }
        i += 1;
    }
    proof {
        assert(ranges@.subrange(0, ranges@.len() as int) =~= ranges@);
    }
    out
}

/// Gets the system memory layout from the device tree nodes, in tree order:
/// the non-empty memory ranges, `None` when the tree cannot be read or
/// provides no non-empty memory range.
pub fn get_memory_layout(nodes: &[DtbNode]) -> (r: Option<Vec<Range>>)
    ensures
        match r {
            None => memory_layout_spec(nodes@, false) is None,
            Some(v) => memory_layout_spec(nodes@, false) == Some(v@),
        },
{
    let ranges = match scan_memory_nodes(nodes) {
        Err(_) => return None,
        Ok(v) => v,
    };
    let trimmed = trim_ranges(ranges.as_slice());
    if trimmed.len() == 0 {
        return None;
    }
    Some(trimmed)
}

proof fn lemma_reg_err(v: Seq<u8>, ac: u32, sc: u32, n: nat, j: nat, ranges: Seq<Range>, clamp: bool)
    requires
        j <= n,
        reg_fold(v, ac, sc, j, ranges, clamp) is Err,
    ensures
        reg_fold(v, ac, sc, n, ranges, clamp) == reg_fold(v, ac, sc, j, ranges, clamp),
    decreases n - j,
{
    if j < n {
        lemma_reg_err(v, ac, sc, (n - 1) as nat, j, ranges, clamp);
    }
}

proof fn lemma_device_err(props: Seq<DtbProperty>, ac: u32, sc: u32, k: int)
    requires
        0 <= k <= props.len(),
        device_props(props.subrange(0, k), ac, sc) is Err,
    ensures
        device_props(props, ac, sc) == device_props(props.subrange(0, k), ac, sc),
    decreases props.len(),
{
    if k < props.len() {
        assert(props.drop_last().subrange(0, k) =~= props.subrange(0, k));
        lemma_device_err(props.drop_last(), ac, sc, k);
    } else {
        assert(props.subrange(0, k) =~= props);
    }
}

} // verus!
