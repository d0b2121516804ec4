//! SoC platform configuration.

use vstd::prelude::*;
use vstd::string::StringSliceAdditionalSpecFns;
use crate::support::dtb::{
    cell_config, cells_value, first_named, find_property, get_cell_config, has_prefix, read_cells, DtbError,
    DtbNode, DtbProperty,
};
use crate::peripherals::soc::{lemma_cells_bound, ranges_entry_cpu, ranges_entry_size, ranges_entry_soc};

verus! {

/// Maximum number of SoC memory mappings that can be stored in a configuration.
pub const SOC_MAPPINGS: usize = 64;

/// Mapping from system peripheral addresses to CPU addresses.
#[derive(Copy, Clone, Debug)]
pub struct SocMapping {
    pub soc_base: usize,
    pub cpu_base: usize,
    pub size: usize,
}

/// Mapping container holding at most `SOC_MAPPINGS` mappings.
pub struct SocConfig {
    mappings: Vec<SocMapping>,
}

impl View for SocConfig {
    type V = Seq<SocMapping>;

    /// The valid mappings, in the order they were added.
    closed spec fn view(&self) -> Seq<SocMapping> {
        self.mappings@
    }
}

impl SocConfig {
    /// Constructs an empty container.
    pub fn new() -> (r: Self)
        ensures
            r@ == Seq::<SocMapping>::empty(),
    {
        SocConfig { mappings: Vec::new() }
    }

    /// Gets the valid mappings in the container.
    pub fn get_mappings(&self) -> (r: &[SocMapping])
        ensures
            r@ == self@,
    {
        self.mappings.as_slice()
    }

    /// Adds a mapping to the container. The mapping is dropped when the
    /// container is full.
    pub fn add_mapping(&mut self, mapping: SocMapping)
        ensures
            final(self)@ == (if old(self)@.len() >= SOC_MAPPINGS {
                old(self)@
            } else {
                old(self)@.push(mapping)
            }),
    {
        if self.mappings.len() >= SOC_MAPPINGS {
            return;
        }
        self.mappings.push(mapping);
    }
}

/// The container after adding a mapping (dropped when the container is full).
pub open spec fn add_spec(maps: Seq<SocMapping>, m: SocMapping) -> Seq<SocMapping> {
    if maps.len() >= SOC_MAPPINGS {
        maps
    } else {
        maps.push(m)
    }
}

/// The container after adding the mappings `ms` in order to an empty one.
pub open spec fn added(ms: Seq<SocMapping>) -> Seq<SocMapping>
    decreases ms.len(),
{
    if ms.len() == 0 {
        Seq::empty()
    } else {
        add_spec(added(ms.drop_last()), ms.last())
    }
}

/// Adding mappings one at a time to an empty container keeps the first
/// `SOC_MAPPINGS` of them, in the order they were added.
pub proof fn law_added_mappings(ms: Seq<SocMapping>)
    ensures
        added(ms) == ms.subrange(0, if ms.len() < SOC_MAPPINGS { ms.len() as int } else { SOC_MAPPINGS as int }),
    decreases ms.len(),
{
    if ms.len() > 0 {
        law_added_mappings(ms.drop_last());
        let prev = ms.drop_last();
        if prev.len() < SOC_MAPPINGS {
            assert(prev.push(ms.last()) =~= ms.subrange(0, ms.len() as int));
        } else {
            assert(prev.subrange(0, SOC_MAPPINGS as int) =~= ms.subrange(0, SOC_MAPPINGS as int));
        }
    } else {
        assert(ms.subrange(0, 0) =~= Seq::<SocMapping>::empty());
    }
}

/// The size in bytes of one entry of a `ranges` property.
pub open spec fn range_size(soc_cells: u32, cpu_cells: u32, size_cells: u32) -> int {
    4 * (soc_cells + cpu_cells + size_cells)
}

/// Whether a mapping of `size` bytes from SoC address `soc` to CPU address
/// `cpu` fits in the platform's address space: a mapping that does not is
/// skipped, the SoC is never partially mapped.
pub open spec fn mapping_fits(soc: u64, cpu: u64, size: u64) -> bool {
    &&& cpu <= usize::MAX
    &&& soc <= usize::MAX
    &&& size <= usize::MAX - cpu
    &&& size <= usize::MAX - soc
}

/// The mappings after reading the first `n` entries of a `ranges` value.
pub open spec fn ranges_fold(v: Seq<u8>, sc: u32, cc: u32, zc: u32, n: nat, maps: Seq<SocMapping>) -> Seq<SocMapping>
    decreases n,
{
    if n == 0 {
        maps
    } else {
        let prev = ranges_fold(v, sc, cc, zc, (n - 1) as nat, maps);
        let off = (n - 1) * range_size(sc, cc, zc);
        let soc = cells_value(v, off, sc).unwrap();
        let cpu = cells_value(v, off + 4 * sc, cc).unwrap();
        let size = cells_value(v, off + 4 * (sc + cc), zc).unwrap();
        if mapping_fits(soc, cpu, size) {
            add_spec(prev, SocMapping { soc_base: soc as usize, cpu_base: cpu as usize, size: size as usize })
        } else {
            prev
        }
    }
}

/// The mappings after reading a `ranges` value whose entries have `sc` SoC
/// address cells, `cc` CPU address cells and `zc` size cells. The value must
/// hold a positive whole number of entries, the SoC addresses may not be
/// wider than the CPU addresses, and numbers span at most two cells.
pub open spec fn read_ranges_spec(v: Seq<u8>, sc: u32, cc: u32, zc: u32, maps: Seq<SocMapping>) -> Result<
    Seq<SocMapping>,
    DtbError,
> {
    let rs = range_size(sc, cc, zc);
    let len = v.len() as int;
    if rs == 0 || len == 0 || len < rs || len % rs != 0 || sc > cc || sc > 2 || cc > 2 || zc > 2 {
        Err(DtbError::InvalidDtb)
    } else {
        Ok(ranges_fold(v, sc, cc, zc, (len / rs) as nat, maps))
    }
}

/// Reads the SoC mappings of a `ranges` property value into the container.
pub fn read_ranges(value: &[u8], soc_addr_cells: u32, cpu_addr_cells: u32, size_cells: u32, config: &mut SocConfig) -> (r:
    Result<(), DtbError>)
    ensures
        match read_ranges_spec(value@, soc_addr_cells, cpu_addr_cells, size_cells, old(config)@) {
            Err(e) => r == Err::<(), DtbError>(e) && final(config)@ == old(config)@,
            Ok(maps) => r is Ok && final(config)@ == maps,
        },
{
    let rs: u64 = 4 * (soc_addr_cells as u64 + cpu_addr_cells as u64 + size_cells as u64);
    let len = value.len() as u64;
    if rs == 0 || len == 0 || len < rs || len % rs != 0 || soc_addr_cells > cpu_addr_cells || soc_addr_cells > 2
        || cpu_addr_cells > 2 || size_cells > 2 {
        return Err(DtbError::InvalidDtb);
    }
    let rsz = rs as usize;
    let n = value.len() / rsz;
    let ghost maps0 = config@;
    let vlen = value.len();
    let mut k: usize = 0;
    while k < n
        invariant
            vlen == value@.len(),
            rsz == range_size(soc_addr_cells, cpu_addr_cells, size_cells),
            0 < rsz <= 24,
            soc_addr_cells <= 2,
            cpu_addr_cells <= 2,
            size_cells <= 2,
            n == (value@.len() as int) / (rsz as int),
            (value@.len() as int) % (rsz as int) == 0,
            k <= n,
            config@ == ranges_fold(value@, soc_addr_cells, cpu_addr_cells, size_cells, k as nat, maps0),
        decreases n - k,
    {
        proof {
            vstd::arithmetic::div_mod::lemma_fundamental_div_mod(value@.len() as int, rsz as int);
            assert((k + 1) * rsz <= n * rsz) by (nonlinear_arith)
                requires k < n, rsz > 0;
            assert(k * rsz + rsz == (k + 1) * rsz) by (nonlinear_arith);
        }
        let off = k * rsz;
        let soc = read_cells(value, off, soc_addr_cells).unwrap();
        let cpu = read_cells(value, off + 4 * (soc_addr_cells as usize), cpu_addr_cells).unwrap();
        let size = read_cells(value, off + 4 * (soc_addr_cells as usize + cpu_addr_cells as usize), size_cells).unwrap();
        let umax = usize::MAX as u64;
        if cpu <= umax && soc <= umax && size <= umax - cpu && size <= umax - soc {
            config.add_mapping(SocMapping { soc_base: soc as usize, cpu_base: cpu as usize, size: size as usize });
        }
        k += 1;
    }
    Ok(())
}

/// The mappings after reading a node's `ranges` property, if it has one.
pub open spec fn soc_mappings_spec(props: Seq<DtbProperty>, sc: u32, cc: u32, zc: u32, maps: Seq<SocMapping>) -> Result<
    Seq<SocMapping>,
    DtbError,
> {
    match first_named(props, "ranges".spec_bytes()) {
        None => Ok(maps),
        Some(i) => read_ranges_spec(props[i].value@, sc, cc, zc, maps),
    }
}

/// Reads the SoC mappings of the `soc` node's `ranges` property.
pub fn read_soc_mappings(props: &[DtbProperty], soc_addr_cells: u32, cpu_addr_cells: u32, size_cells: u32, config: &mut SocConfig) -> (r:
    Result<(), DtbError>)
    ensures
        match soc_mappings_spec(props@, soc_addr_cells, cpu_addr_cells, size_cells, old(config)@) {
            Err(e) => r == Err::<(), DtbError>(e) && final(config)@ == old(config)@,
            Ok(maps) => r is Ok && final(config)@ == maps,
        },
{
    match find_property(props, "ranges".as_bytes()) {
        None => Ok(()),
        Some(i) => read_ranges(props[i].value.as_slice(), soc_addr_cells, cpu_addr_cells, size_cells, config),
    }
}

/// The SoC mappings given the root node's properties and the `soc` node's,
/// `None` when the tree has no `soc` node or a node cannot be read.
pub open spec fn soc_layout_spec(root: Seq<DtbProperty>, soc: Option<Seq<DtbProperty>>) -> Option<Seq<SocMapping>> {
    match cell_config(root, 0, 0) {
        Err(_) => None,
        Ok(cpu) => match soc {
            None => None,
            Some(soc_props) => match cell_config(soc_props, cpu.0, cpu.1) {
                Err(_) => None,
                Ok(socc) => match soc_mappings_spec(soc_props, socc.0, cpu.0, socc.1, Seq::empty()) {
                    Err(_) => None,
                    Ok(maps) => Some(maps),
                },
            },
        },
    }
}

/// Scans the device tree for SoC memory mappings: the `ranges` of the `soc`
/// child of the root node, read with the cell configurations of the root and
/// `soc` nodes. The mapping list may be empty.
pub fn get_soc_memory_layout(root: &[DtbProperty], soc: Option<&[DtbProperty]>) -> (r: Option<SocConfig>)
    ensures
        soc_layout_spec(root@, match soc {
            None => None,
            Some(s) => Some(s@),
        }) == match r {
            None => None,
            Some(c) => Some(c@),
        },
{
    let mut config = SocConfig::new();
    let cpu = match get_cell_config(root, 0, 0) {
        Ok(c) => c,
        Err(_) => return None,
    };
    let soc_props = match soc {
        Some(s) => s,
        None => return None,
    };
    let socc = match get_cell_config(soc_props, cpu.0, cpu.1) {
        Ok(c) => c,
        Err(_) => return None,
    };
    match read_soc_mappings(soc_props, socc.0, cpu.0, socc.1, &mut config) {
        Ok(()) => Some(config),
        Err(_) => None,
    }
}

/// Whether a node name matches `cpu@[0-9]+` (the digits are not checked).
pub open spec fn is_cpu_name(name: Seq<u8>) -> bool {
    name.len() >= 5 && "cpu@".spec_bytes().len() <= name.len() && name.subrange(
        0,
        "cpu@".spec_bytes().len() as int,
    ) == "cpu@".spec_bytes()
}

/// The number of nodes named `cpu@N`.
pub open spec fn count_cpus(nodes: Seq<DtbNode>) -> nat
    decreases nodes.len(),
{
    if nodes.len() == 0 {
        0
    } else {
        count_cpus(nodes.drop_last()) + if is_cpu_name(nodes.last().name@) {
            1nat
        } else {
            0nat
        }
    }
}

/// Counts the DTB CPU nodes.
pub struct DtbCpuScanner {
    count: usize,
}

impl DtbCpuScanner {
    /// The number of CPU nodes seen.
    pub closed spec fn seen(&self) -> usize {
        self.count
    }

    /// A scanner that has seen no CPU node.
    pub fn new() -> (r: Self)
        ensures
            r.seen() == 0,
    {
        DtbCpuScanner { count: 0 }
    }

    /// Checks if a node matches `cpu@[0-9]+` and counts it. Returns whether
    /// scanning continues (always).
    pub fn scan_node(&mut self, name: &[u8]) -> (r: Result<bool, DtbError>)
        requires
            old(self).seen() < usize::MAX,
        ensures
            r == Ok::<bool, DtbError>(true),
            final(self).seen() == old(self).seen() + if is_cpu_name(name@) {
                1int
            } else {
                0int
            },
    {
        // Check if the name is long enough to contain at least `cpu@x`.
        if name.len() < 5 {
            return Ok(true);
        }
        if has_prefix(name, "cpu@".as_bytes()) {
            self.count += 1;
        }
        Ok(true)
    }
}

/// Counts the cores: the nodes named `cpu@N`.
pub fn get_soc_core_count(nodes: &[DtbNode]) -> (r: Option<usize>)
    ensures
        r == Some(count_cpus(nodes@) as usize),
{
    let mut scanner = DtbCpuScanner::new();
    let mut i: usize = 0;
    proof {
        assert(nodes@.subrange(0, 0) =~= Seq::<DtbNode>::empty());
    }
    while i < nodes.len()
        invariant
            i <= nodes@.len(),
            scanner.seen() == count_cpus(nodes@.subrange(0, i as int)),
            count_cpus(nodes@.subrange(0, i as int)) <= i,
        decreases nodes@.len() - i,
    {
        proof {
            assert(nodes@.subrange(0, i + 1).drop_last() =~= nodes@.subrange(0, i as int));
            assert(nodes@.subrange(0, i + 1).last() == nodes@[i as int]);
        }
        let _ = scanner.scan_node(nodes[i].name.as_slice());
        i += 1;
    }
    proof {
        assert(nodes@.subrange(0, nodes@.len() as int) =~= nodes@);
    }
    Some(scanner.count)
}


/// Whether entry `j` of a `ranges` value fits in the address space (see
/// `mapping_fits`), read from its cells.
pub open spec fn ranges_entry_fits(v: Seq<u8>, sc: u32, cc: u32, zc: u32, j: int) -> bool {
    let soc = ranges_entry_soc(v, sc, cc, zc, j);
    let cpu = ranges_entry_cpu(v, sc, cc, zc, j);
    let size = ranges_entry_size(v, sc, cc, zc, j);
    &&& cpu <= usize::MAX
    &&& soc <= usize::MAX
    &&& size <= usize::MAX - cpu
    &&& size <= usize::MAX - soc
}

/// Reading the first `n` entries of a `ranges` value whose entries all fit
/// into an empty container records the first `min(n, SOC_MAPPINGS)` entries
/// in order, each as the mapping of its SoC address (first `sc` cells) to its
/// CPU address (next `cc` cells) over its size (last `zc` cells).
pub proof fn law_ranges_entries(v: Seq<u8>, sc: u32, cc: u32, zc: u32, n: nat)
    requires
        sc <= 2,
        cc <= 2,
        zc <= 2,
        n * range_size(sc, cc, zc) <= v.len(),
        forall|j: int| 0 <= j < n ==> #[trigger] ranges_entry_fits(v, sc, cc, zc, j),
    ensures
        ({
            let res = ranges_fold(v, sc, cc, zc, n, Seq::empty());
            &&& res.len() == (if n < SOC_MAPPINGS { n as int } else { SOC_MAPPINGS as int })
            &&& forall|j: int|
                0 <= j < res.len() ==> {
                    &&& (#[trigger] res[j]).soc_base as int == ranges_entry_soc(v, sc, cc, zc, j)
                    &&& res[j].cpu_base as int == ranges_entry_cpu(v, sc, cc, zc, j)
                    &&& res[j].size as int == ranges_entry_size(v, sc, cc, zc, j)
                }
        }),
    decreases n,
{
    if n > 0 {
        let k = n - 1;
        let rs = range_size(sc, cc, zc);
        assert(k * rs <= n * rs) by (nonlinear_arith)
            requires
                k <= n,
                rs >= 0,
        ;
        law_ranges_entries(v, sc, cc, zc, k as nat);
        let off = k * rs;
        assert(off >= 0 && off + rs == n * rs) by (nonlinear_arith)
            requires
                k >= 0,
                rs >= 0,
                off == k * rs,
                n == k + 1,
        ;
        assert(off == k * (4 * (sc + cc + zc)));
        lemma_cells_bound(v, off, sc);
        lemma_cells_bound(v, off + 4 * sc, cc);
        lemma_cells_bound(v, off + 4 * (sc + cc), zc);
        assert(ranges_entry_fits(v, sc, cc, zc, k));
    }
}

/// The SoC mappings read from a tree: when every entry of the `soc` node's
/// `ranges` fits in the address space, they are its entries in order, each
/// read with the `soc` node's `#address-cells` for the SoC address, the root
/// node's `#address-cells` for the CPU address and the `soc` node's
/// `#size-cells` for the size. With no `ranges` there is no mapping.
pub proof fn law_soc_layout_entries(root: Seq<DtbProperty>, soc: Seq<DtbProperty>)
    requires
        soc_layout_spec(root, Some(soc)) is Some,
        ({
            let cpu = cell_config(root, 0, 0)->Ok_0;
            let socc = cell_config(soc, cpu.0, cpu.1)->Ok_0;
            first_named(soc, "ranges".spec_bytes()) matches Some(i) ==> forall|j: int|
                0 <= j < (soc[i].value@.len() as int) / range_size(socc.0, cpu.0, socc.1) ==> #[trigger] ranges_entry_fits(
                    soc[i].value@,
                    socc.0,
                    cpu.0,
                    socc.1,
                    j,
                )
        }),
    ensures
        ({
            let cpu = cell_config(root, 0, 0)->Ok_0;
            let socc = cell_config(soc, cpu.0, cpu.1)->Ok_0;
            let maps = soc_layout_spec(root, Some(soc))->0;
            match first_named(soc, "ranges".spec_bytes()) {
                None => maps.len() == 0,
                Some(i) => {
                    let v = soc[i].value@;
                    let n = (v.len() as int) / range_size(socc.0, cpu.0, socc.1);
                    &&& maps.len() == (if n < SOC_MAPPINGS { n } else { SOC_MAPPINGS as int })
                    &&& forall|j: int|
                        0 <= j < maps.len() ==> {
                            &&& (#[trigger] maps[j]).soc_base as int == ranges_entry_soc(v, socc.0, cpu.0, socc.1, j)
                            &&& maps[j].cpu_base as int == ranges_entry_cpu(v, socc.0, cpu.0, socc.1, j)
                            &&& maps[j].size as int == ranges_entry_size(v, socc.0, cpu.0, socc.1, j)
                        }
                },
            }
        }),
{
    let cpu = cell_config(root, 0, 0)->Ok_0;
    let socc = cell_config(soc, cpu.0, cpu.1)->Ok_0;
    match first_named(soc, "ranges".spec_bytes()) {
        None => {},
        Some(i) => {
            let v = soc[i].value@;
            let rs = range_size(socc.0, cpu.0, socc.1);
            let n = (v.len() as int) / rs;
            assert(n * rs <= v.len()) by (nonlinear_arith)
                requires
                    rs > 0,
                    n == (v.len() as int) / rs,
            ;
            law_ranges_entries(v, socc.0, cpu.0, socc.1, n as nat);
        },
    }
}


/// A tree whose root and `soc` nodes hold readable cell configurations is
/// read: with no `ranges` in the `soc` node there is no mapping, and a
/// non-empty `ranges` value of a whole number of entries, numbers of at most
/// two cells and SoC addresses no wider than CPU addresses, gives mappings
/// (those of `law_soc_layout_entries` when every entry fits).
pub proof fn law_soc_layout_read(root: Seq<DtbProperty>, soc: Seq<DtbProperty>)
    requires
        cell_config(root, 0, 0) is Ok,
        ({
            let cpu = cell_config(root, 0, 0)->Ok_0;
            cell_config(soc, cpu.0, cpu.1) is Ok
        }),
        ({
            let cpu = cell_config(root, 0, 0)->Ok_0;
            let socc = cell_config(soc, cpu.0, cpu.1)->Ok_0;
            first_named(soc, "ranges".spec_bytes()) matches Some(i) ==> {
                let len = soc[i].value@.len() as int;
                let rs = range_size(socc.0, cpu.0, socc.1);
                &&& socc.0 <= 2
                &&& cpu.0 <= 2
                &&& socc.1 <= 2
                &&& socc.0 <= cpu.0
                &&& rs > 0
                &&& len > 0
                &&& len % rs == 0
            }
        }),
    ensures
        soc_layout_spec(root, Some(soc)) is Some,
{
    let cpu = cell_config(root, 0, 0)->Ok_0;
    let socc = cell_config(soc, cpu.0, cpu.1)->Ok_0;
    match first_named(soc, "ranges".spec_bytes()) {
        None => {},
        Some(i) => {
            let len = soc[i].value@.len() as int;
            let rs = range_size(socc.0, cpu.0, socc.1);
            assert(len >= rs) by (nonlinear_arith)
                requires
                    rs > 0,
                    len > 0,
                    len % rs == 0,
            ;
        },
    }
}

} // verus!
