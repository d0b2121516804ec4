//! SoC peripheral address mappings.

use vstd::prelude::*;
use vstd::string::StringSliceAdditionalSpecFns;
use crate::support::dtb::{
    be_value, cell_config, cells_value, first_named, find_property, get_cell_config, lemma_be_value_bound, read_cells,
    DtbError, DtbProperty,
};

verus! {

/// Maximum number of SoC memory mappings that can be stored in a configuration.
pub const SOC_MAPPINGS: usize = 64;

/// Mapping from system peripheral addresses to CPU addresses.
#[derive(Copy, Clone, Debug)]
pub struct SocMapping {
    pub soc_base: usize,
    pub cpu_base: usize,
    pub size: usize,
}

/// Mapping container holding at most `SOC_MAPPINGS` mappings.
pub struct SocConfig {
    mappings: Vec<SocMapping>,
}

impl View for SocConfig {
    type V = Seq<SocMapping>;

    /// The valid mappings, in the order they were added.
    closed spec fn view(&self) -> Seq<SocMapping> {
        self.mappings@
    }
}

impl SocConfig {
    /// Constructs an empty container.
    pub fn new() -> (r: Self)
        ensures
            r@ == Seq::<SocMapping>::empty(),
    {
        SocConfig { mappings: Vec::new() }
    }

    /// Gets the valid mappings in the container.
    pub fn get_mappings(&self) -> (r: &[SocMapping])
        ensures
            r@ == self@,
    {
        self.mappings.as_slice()
    }

    /// Adds a mapping to the container. The mapping is dropped when the
    /// container is full.
    pub fn add_mapping(&mut self, mapping: SocMapping)
        ensures
            final(self)@ == (if old(self)@.len() >= SOC_MAPPINGS {
                old(self)@
            } else {
                old(self)@.push(mapping)
            }),
    {
        if self.mappings.len() >= SOC_MAPPINGS {
            return;
        }
        self.mappings.push(mapping);
    }
}

/// The container after adding a mapping (dropped when the container is full).
pub open spec fn add_spec(maps: Seq<SocMapping>, m: SocMapping) -> Seq<SocMapping> {
    if maps.len() >= SOC_MAPPINGS {
        maps
    } else {
        maps.push(m)
    }
}

/// The mappings after reading the first `n` entries of a `ranges` value of
/// entries of `rs` bytes; an entry whose numbers do not fit in a word is an
/// error.
pub open spec fn ranges_fold(v: Seq<u8>, sc: u32, cc: u32, zc: u32, rs: int, n: nat, maps: Seq<SocMapping>) -> Result<
    Seq<SocMapping>,
    DtbError,
>
    decreases n,
{
    if n == 0 {
        Ok(maps)
    } else {
        match ranges_fold(v, sc, cc, zc, rs, (n - 1) as nat, maps) {
            Err(e) => Err(e),
            Ok(prev) => {
                let off = (n - 1) * rs;
                match (cells_value(v, off, sc), cells_value(v, off + 4 * sc, cc), cells_value(v, off + 4 * (sc + cc), zc)) {
                    (Some(soc), Some(cpu), Some(size)) => if soc <= usize::MAX && cpu <= usize::MAX && size <= usize::MAX {
                        Ok(add_spec(prev, SocMapping { soc_base: soc as usize, cpu_base: cpu as usize, size: size as usize }))
                    } else {
                        Err(DtbError::InvalidDtb)
                    },
                    _ => Err(DtbError::InvalidDtb),
                }
            },
        }
    }
}

/// The mappings after reading a `ranges` value: a whole number of entries of
/// `4 * (sc + cc + zc)` bytes each.
pub open spec fn read_ranges_spec(v: Seq<u8>, sc: u32, cc: u32, zc: u32, maps: Seq<SocMapping>) -> Result<
    Seq<SocMapping>,
    DtbError,
> {
    let rs = 4 * (sc + cc + zc);
    let len = v.len() as int;
    if rs == 0 || len % rs != 0 {
        Err(DtbError::InvalidDtb)
    } else {
        ranges_fold(v, sc, cc, zc, rs, (len / rs) as nat, maps)
    }
}

/// Reads the SoC mappings of a `ranges` property value into the container.
/// On an error the mappings read before it stay in the container.
pub fn read_ranges(value: &[u8], soc_addr_cells: u32, cpu_addr_cells: u32, size_cells: u32, config: &mut SocConfig) -> (r:
    Result<(), DtbError>)
    ensures
        match read_ranges_spec(value@, soc_addr_cells, cpu_addr_cells, size_cells, old(config)@) {
            Err(e) => r == Err::<(), DtbError>(e),
            Ok(maps) => r is Ok && final(config)@ == maps,
        },
{
    let rs: u64 = 4 * (soc_addr_cells as u64 + cpu_addr_cells as u64 + size_cells as u64);
    let len = value.len() as u64;
    if rs == 0 || len % rs != 0 {
        return Err(DtbError::InvalidDtb);
    }
    let n = len / rs;
    let ghost maps0 = config@;
    let vlen = value.len();
    let mut k: u64 = 0;
    while k < n
        invariant
            vlen == value@.len(),
            len == vlen,
            rs == 4 * (soc_addr_cells + cpu_addr_cells + size_cells),
            rs > 0,
            n == (len as int) / (rs as int),
            (len as int) % (rs as int) == 0,
            k <= n,
            maps0 == old(config)@,
            ranges_fold(value@, soc_addr_cells, cpu_addr_cells, size_cells, rs as int, k as nat, maps0)
                == Ok::<Seq<SocMapping>, DtbError>(config@),
        decreases n - k,
    {
        proof {
            vstd::arithmetic::div_mod::lemma_fundamental_div_mod(len as int, rs as int);
            assert((k + 1) * rs <= n * rs) by (nonlinear_arith)
                requires k < n, rs > 0;
            assert(k * rs + rs == (k + 1) * rs) by (nonlinear_arith);
        }
        if soc_addr_cells > 2 || cpu_addr_cells > 2 || size_cells > 2 {
            proof {
                assert(ranges_fold(value@, soc_addr_cells, cpu_addr_cells, size_cells, rs as int, (k + 1) as nat, maps0) is Err);
                lemma_fold_err(value@, soc_addr_cells, cpu_addr_cells, size_cells, rs as int, n as nat, k as nat, maps0);
            }
            return Err(DtbError::InvalidDtb);
        }
        let off = (k * rs) as usize;
        let soc = read_cells(value, off, soc_addr_cells).unwrap();
        let cpu = read_cells(value, off + 4 * (soc_addr_cells as usize), cpu_addr_cells).unwrap();
        let size = read_cells(value, off + 4 * (soc_addr_cells as usize + cpu_addr_cells as usize), size_cells).unwrap();
        let umax = usize::MAX as u64;
        if soc > umax || cpu > umax || size > umax {
            proof {
                assert(ranges_fold(value@, soc_addr_cells, cpu_addr_cells, size_cells, rs as int, (k + 1) as nat, maps0) is Err);
                lemma_fold_err(value@, soc_addr_cells, cpu_addr_cells, size_cells, rs as int, n as nat, k as nat, maps0);
            }
            return Err(DtbError::InvalidDtb);
        }
        config.add_mapping(SocMapping { soc_base: soc as usize, cpu_base: cpu as usize, size: size as usize });
        k += 1;
    }
    Ok(())
}

/// A failing entry makes the whole read fail.
proof fn lemma_fold_err(v: Seq<u8>, sc: u32, cc: u32, zc: u32, rs: int, n: nat, k: nat, maps: Seq<SocMapping>)
    requires
        k < n,
        ranges_fold(v, sc, cc, zc, rs, k, maps) is Ok,
        ranges_fold(v, sc, cc, zc, rs, k + 1, maps) is Err,
    ensures
        ranges_fold(v, sc, cc, zc, rs, n, maps) == ranges_fold(v, sc, cc, zc, rs, k + 1, maps),
    decreases n - k,
{
    if k + 1 < n {
        lemma_fold_err_up(v, sc, cc, zc, rs, n, k + 1, maps);
    }
}

proof fn lemma_fold_err_up(v: Seq<u8>, sc: u32, cc: u32, zc: u32, rs: int, n: nat, j: nat, maps: Seq<SocMapping>)
    requires
        j <= n,
        ranges_fold(v, sc, cc, zc, rs, j, maps) is Err,
    ensures
        ranges_fold(v, sc, cc, zc, rs, n, maps) == ranges_fold(v, sc, cc, zc, rs, j, maps),
    decreases n - j,
{
    if j < n {
        lemma_fold_err_up(v, sc, cc, zc, rs, (n - 1) as nat, j, maps);
    }
}

/// The mappings after reading a node's `ranges` property, if it has one.
pub open spec fn soc_mappings_spec(props: Seq<DtbProperty>, sc: u32, cc: u32, zc: u32, maps: Seq<SocMapping>) -> Result<
    Seq<SocMapping>,
    DtbError,
> {
    match first_named(props, "ranges".spec_bytes()) {
        None => Ok(maps),
        Some(i) => read_ranges_spec(props[i].value@, sc, cc, zc, maps),
    }
}

/// Reads the SoC mappings of the `soc` node's `ranges` property.
pub fn read_soc_mappings(props: &[DtbProperty], soc_addr_cells: u32, cpu_addr_cells: u32, size_cells: u32, config: &mut SocConfig) -> (r:
    Result<(), DtbError>)
    ensures
        match soc_mappings_spec(props@, soc_addr_cells, cpu_addr_cells, size_cells, old(config)@) {
            Err(e) => r == Err::<(), DtbError>(e),
            Ok(maps) => r is Ok && final(config)@ == maps,
        },
{
    match find_property(props, "ranges".as_bytes()) {
        None => Ok(()),
        Some(i) => read_ranges(props[i].value.as_slice(), soc_addr_cells, cpu_addr_cells, size_cells, config),
    }
}

/// The SoC mappings given the root node's properties and the `soc` node's,
/// `None` when the tree has no `soc` node or a node cannot be read.
pub open spec fn soc_layout_spec(root: Seq<DtbProperty>, soc: Option<Seq<DtbProperty>>) -> Option<Seq<SocMapping>> {
    match cell_config(root, 0, 0) {
        Err(_) => None,
        Ok(cpu) => match soc {
            None => None,
            Some(soc_props) => match cell_config(soc_props, cpu.0, cpu.1) {
                Err(_) => None,
                Ok(socc) => match soc_mappings_spec(soc_props, socc.0, cpu.0, socc.1, Seq::empty()) {
                    Err(_) => None,
                    Ok(maps) => Some(maps),
                },
            },
        },
    }
}

/// Scans the device tree for SoC memory mappings: the `ranges` of the `soc`
/// child of the root node, read with the cell configurations of the root and
/// `soc` nodes.
pub fn get_soc_memory_layout(root: &[DtbProperty], soc: Option<&[DtbProperty]>) -> (r: Option<SocConfig>)
    ensures
        soc_layout_spec(root@, match soc {
            None => None,
            Some(s) => Some(s@),
        }) == match r {
            None => None,
            Some(c) => Some(c@),
        },
{
    let mut config = SocConfig::new();
    let cpu = match get_cell_config(root, 0, 0) {
        Ok(c) => c,
        Err(_) => return None,
    };
    let soc_props = match soc {
        Some(s) => s,
        None => return None,
    };
    let socc = match get_cell_config(soc_props, cpu.0, cpu.1) {
        Ok(c) => c,
        Err(_) => return None,
    };
    match read_soc_mappings(soc_props, socc.0, cpu.0, socc.1, &mut config) {
        Ok(()) => Some(config),
        Err(_) => None,
    }
}


/// The SoC (child) address of entry `j` of a `ranges` value of `sc` SoC
/// address cells, `cc` CPU address cells and `zc` size cells: the number in
/// the entry's first `sc` cells.
pub open spec fn ranges_entry_soc(v: Seq<u8>, sc: u32, cc: u32, zc: u32, j: int) -> nat {
    be_value(v, j * (4 * (sc + cc + zc)), (4 * sc) as nat)
}

/// The CPU (parent) address of entry `j`: the number in the `cc` cells
/// after the SoC address.
pub open spec fn ranges_entry_cpu(v: Seq<u8>, sc: u32, cc: u32, zc: u32, j: int) -> nat {
    be_value(v, j * (4 * (sc + cc + zc)) + 4 * sc, (4 * cc) as nat)
}

/// The size of entry `j`: the number in the `zc` cells after both
/// addresses.
pub open spec fn ranges_entry_size(v: Seq<u8>, sc: u32, cc: u32, zc: u32, j: int) -> nat {
    be_value(v, j * (4 * (sc + cc + zc)) + 4 * (sc + cc), (4 * zc) as nat)
}

/// A number of at most two cells is below 2^64.
pub proof fn lemma_cells_bound(v: Seq<u8>, off: int, c: u32)
    requires
        c <= 2,
        0 <= off,
        off + 4 * c <= v.len(),
    ensures
        be_value(v, off, (4 * c) as nat) <= u64::MAX,
{
    lemma_be_value_bound(v, off, (4 * c) as nat);
    vstd::arithmetic::power2::lemma2_to64();
    if c == 2 {
        assert(vstd::arithmetic::power2::pow2((8 * (4 * c)) as nat) == 0x1_0000_0000_0000_0000);
    } else if c == 1 {
        assert(vstd::arithmetic::power2::pow2((8 * (4 * c)) as nat) == 0x1_0000_0000);
    } else {
        assert(vstd::arithmetic::power2::pow2((8 * (4 * c)) as nat) == 1);
    }
}

/// Reading the first `n` entries of a `ranges` value into an empty
/// container records the first `min(n, SOC_MAPPINGS)` entries in order,
/// each as the mapping of its SoC address (first `sc` cells) to its CPU
/// address (next `cc` cells) over its size (last `zc` cells).
pub proof fn law_ranges_entries(v: Seq<u8>, sc: u32, cc: u32, zc: u32, n: nat)
    requires
        ranges_fold(v, sc, cc, zc, 4 * (sc + cc + zc), n, Seq::empty()) is Ok,
    ensures
        ({
            let res = ranges_fold(v, sc, cc, zc, 4 * (sc + cc + zc), n, Seq::empty())->Ok_0;
            &&& res.len() == (if n < SOC_MAPPINGS { n as int } else { SOC_MAPPINGS as int })
            &&& forall|j: int|
                0 <= j < res.len() ==> {
                    &&& (#[trigger] res[j]).soc_base as int == ranges_entry_soc(v, sc, cc, zc, j)
                    &&& res[j].cpu_base as int == ranges_entry_cpu(v, sc, cc, zc, j)
                    &&& res[j].size as int == ranges_entry_size(v, sc, cc, zc, j)
                }
        }),
    decreases n,
{
    if n > 0 {
        let k = n - 1;
        let rs = 4 * (sc + cc + zc);
        law_ranges_entries(v, sc, cc, zc, k as nat);
        let off = k * rs;
        assert(off >= 0) by (nonlinear_arith)
            requires
                k >= 0,
                rs >= 0,
                off == k * rs,
        ;
        assert(cells_value(v, off, sc) is Some);
        assert(cells_value(v, off + 4 * sc, cc) is Some);
        assert(cells_value(v, off + 4 * (sc + cc), zc) is Some);
        lemma_cells_bound(v, off, sc);
        lemma_cells_bound(v, off + 4 * sc, cc);
        lemma_cells_bound(v, off + 4 * (sc + cc), zc);
    }
}

/// The SoC mappings read from a tree: the `ranges` of the `soc` node, each
/// entry read with the `soc` node's `#address-cells` for the SoC address, the
/// root node's `#address-cells` for the CPU address and the `soc` node's
/// `#size-cells` for the size (the `soc` node inheriting the root's cells
/// when it does not set them). With no `ranges` there is no mapping.
pub proof fn law_soc_layout_entries(root: Seq<DtbProperty>, soc: Seq<DtbProperty>)
    requires
        soc_layout_spec(root, Some(soc)) is Some,
    ensures
        ({
            let cpu = cell_config(root, 0, 0)->Ok_0;
            let socc = cell_config(soc, cpu.0, cpu.1)->Ok_0;
            let maps = soc_layout_spec(root, Some(soc))->0;
            match first_named(soc, "ranges".spec_bytes()) {
                None => maps.len() == 0,
                Some(i) => {
                    let v = soc[i].value@;
                    let n = (v.len() as int) / (4 * (socc.0 + cpu.0 + socc.1));
                    &&& maps.len() == (if n < SOC_MAPPINGS { n } else { SOC_MAPPINGS as int })
                    &&& forall|j: int|
                        0 <= j < maps.len() ==> {
                            &&& (#[trigger] maps[j]).soc_base as int == ranges_entry_soc(v, socc.0, cpu.0, socc.1, j)
                            &&& maps[j].cpu_base as int == ranges_entry_cpu(v, socc.0, cpu.0, socc.1, j)
                            &&& maps[j].size as int == ranges_entry_size(v, socc.0, cpu.0, socc.1, j)
                        }
                },
            }
        }),
{
    let cpu = cell_config(root, 0, 0)->Ok_0;
    let socc = cell_config(soc, cpu.0, cpu.1)->Ok_0;
    match first_named(soc, "ranges".spec_bytes()) {
        None => {},
        Some(i) => {
            let v = soc[i].value@;
            let rs = 4 * (socc.0 + cpu.0 + socc.1);
            law_ranges_entries(v, socc.0, cpu.0, socc.1, ((v.len() as int) / rs) as nat);
        },
    }
}


/// The first `n` entries of a `ranges` value are read without error when
/// they lie within the value, numbers span at most two cells and every
/// number fits in an address.
proof fn lemma_ranges_fold_ok(v: Seq<u8>, sc: u32, cc: u32, zc: u32, n: nat)
    requires
        sc <= 2,
        cc <= 2,
        zc <= 2,
        n * (4 * (sc + cc + zc)) <= v.len(),
        forall|j: int|
            0 <= j < n ==> #[trigger] ranges_entry_soc(v, sc, cc, zc, j) <= usize::MAX && ranges_entry_cpu(v, sc, cc, zc, j)
                <= usize::MAX && ranges_entry_size(v, sc, cc, zc, j) <= usize::MAX,
    ensures
        ranges_fold(v, sc, cc, zc, 4 * (sc + cc + zc), n, Seq::empty()) is Ok,
    decreases n,
{
    if n > 0 {
        let k = n - 1;
        let rs = 4 * (sc + cc + zc);
        assert(k * rs + rs == n * rs && k * rs >= 0) by (nonlinear_arith)
            requires
                n == k + 1,
                k >= 0,
                rs >= 0,
        ;
        lemma_ranges_fold_ok(v, sc, cc, zc, k as nat);
        let off = k * rs;
        lemma_cells_bound(v, off, sc);
        lemma_cells_bound(v, off + 4 * sc, cc);
        lemma_cells_bound(v, off + 4 * (sc + cc), zc);
        assert(ranges_entry_soc(v, sc, cc, zc, k) <= usize::MAX);
    }
}

/// A tree whose root and `soc` nodes hold readable cell configurations is
/// read: with no `ranges` in the `soc` node there is no mapping, and a
/// `ranges` value of a whole number of entries (numbers of at most two cells
/// that fit in addresses) gives the mappings of `law_soc_layout_entries`.
pub proof fn law_soc_layout_read(root: Seq<DtbProperty>, soc: Seq<DtbProperty>)
    requires
        cell_config(root, 0, 0) is Ok,
        ({
            let cpu = cell_config(root, 0, 0)->Ok_0;
            cell_config(soc, cpu.0, cpu.1) is Ok
        }),
        ({
            let cpu = cell_config(root, 0, 0)->Ok_0;
            let socc = cell_config(soc, cpu.0, cpu.1)->Ok_0;
            let (sc, cc, zc) = (socc.0, cpu.0, socc.1);
            first_named(soc, "ranges".spec_bytes()) matches Some(i) ==> {
                let v = soc[i].value@;
                &&& sc <= 2
                &&& cc <= 2
                &&& zc <= 2
                &&& sc + cc + zc > 0
                &&& v.len() as int % (4 * (sc + cc + zc)) == 0
                &&& forall|j: int|
                    0 <= j < (v.len() as int) / (4 * (sc + cc + zc)) ==> #[trigger] ranges_entry_soc(v, sc, cc, zc, j)
                        <= usize::MAX && ranges_entry_cpu(v, sc, cc, zc, j) <= usize::MAX && ranges_entry_size(
                        v,
                        sc,
                        cc,
                        zc,
                        j,
                    ) <= usize::MAX
            }
        }),
    ensures
        soc_layout_spec(root, Some(soc)) is Some,
{
    let cpu = cell_config(root, 0, 0)->Ok_0;
    let socc = cell_config(soc, cpu.0, cpu.1)->Ok_0;
    match first_named(soc, "ranges".spec_bytes()) {
        None => {},
        Some(i) => {
            let v = soc[i].value@;
            let rs = 4 * (socc.0 + cpu.0 + socc.1);
            let n = (v.len() as int) / rs;
            assert(n * rs == v.len()) by (nonlinear_arith)
                requires
                    rs > 0,
                    n == (v.len() as int) / rs,
                    v.len() as int % rs == 0,
            ;
            lemma_ranges_fold_ok(v, socc.0, cpu.0, socc.1, n as nat);
        },
    }
}

} // verus!
