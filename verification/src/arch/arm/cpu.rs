//! ARM CPU configuration.

use vstd::prelude::*;
use vstd::string::StringSliceAdditionalSpecFns;
use crate::support::dtb::{
    bytes_eq, cells_value, has_prefix, nul_terminated, read_cells, read_string, DtbError, DtbNode, DtbProperty,
};

verus! {

/// Maximum number of cores supported for an ARM SoC.
pub const MAX_CORES: usize = 512;

/// Length of a core type name.
pub const CPU_TYPE_LEN: usize = 64;

/// Method used to enable a core.
///
/// Spin tables park each core in a loop watching a specific memory address.
/// A core is enabled by writing the desired address to begin executing to the
/// watch address.
///
/// PSCI is the Power State Coordination Interface.
#[derive(Copy, Clone, Debug, PartialEq, Eq, Structural)]
pub enum CoreEnableMethod {
    Invalid,
    SpinTable,
    Psci,
}

/// CPU core information.
#[derive(Debug)]
pub struct Core {
    id: usize,
    cpu_type: Vec<u8>,
    enable_method: CoreEnableMethod,
    cpu_release_addr: usize,
}

impl Core {
    /// A core slot that holds no core: id 0, an all-zero type name, no enable
    /// method and no release address.
    pub open spec fn is_blank(self) -> bool {
        &&& self.spec_id() == 0
        &&& self.spec_cpu_type() == Seq::new(CPU_TYPE_LEN as nat, |i: int| 0u8)
        &&& self.spec_enable_method() == CoreEnableMethod::Invalid
        &&& self.spec_cpu_release_addr() == 0
    }

    /// The core's identifier.
    pub closed spec fn spec_id(self) -> usize {
        self.id
    }

    /// The core's type name (`CPU_TYPE_LEN` bytes, zero padded).
    pub closed spec fn spec_cpu_type(self) -> Seq<u8> {
        self.cpu_type@
    }

    /// The method used to enable the core.
    pub closed spec fn spec_enable_method(self) -> CoreEnableMethod {
        self.enable_method
    }

    /// The address the core watches when parked in a spin table.
    pub closed spec fn spec_cpu_release_addr(self) -> usize {
        self.cpu_release_addr
    }

    /// A core with the given properties; the type name is padded with zeros
    /// or cut to `CPU_TYPE_LEN` bytes.
    pub fn make(id: usize, cpu_type: &[u8], enable_method: CoreEnableMethod, cpu_release_addr: usize) -> (r: Self)
        ensures
            r.spec_id() == id,
            r.spec_cpu_type() == padded_type(cpu_type@),
            r.spec_enable_method() == enable_method,
            r.spec_cpu_release_addr() == cpu_release_addr,
    {
        let mut t: Vec<u8> = Vec::new();
        let mut i: usize = 0;
        while i < CPU_TYPE_LEN
            invariant
                i <= CPU_TYPE_LEN,
                t@ == padded_type(cpu_type@).subrange(0, i as int),
            decreases CPU_TYPE_LEN - i,
        {
            let b = if i < cpu_type.len() {
                cpu_type[i]
            } else {
                0
            };
            t.push(b);
            i += 1;
            assert(t@ =~= padded_type(cpu_type@).subrange(0, i as int));
        }
        assert(t@ =~= padded_type(cpu_type@));
        Core { id, cpu_type: t, enable_method, cpu_release_addr }
    }

    /// A blank core slot.
    pub fn blank() -> (r: Self)
        ensures
            r.is_blank(),
    {
        let mut t: Vec<u8> = Vec::new();
        while t.len() < CPU_TYPE_LEN
            invariant
                t@.len() <= CPU_TYPE_LEN,
                forall|i: int| 0 <= i < t@.len() ==> t@[i] == 0u8,
            decreases CPU_TYPE_LEN - t@.len(),
        {
            t.push(0);
        }
        assert(t@ =~= Seq::new(CPU_TYPE_LEN as nat, |i: int| 0u8));
        Core { id: 0, cpu_type: t, enable_method: CoreEnableMethod::Invalid, cpu_release_addr: 0 }
    }

    /// A copy of the core.
    pub fn duplicate(&self) -> (r: Self)
        ensures
            core_view(r) == core_view(*self),
    {
        let mut t: Vec<u8> = Vec::new();
        let mut i: usize = 0;
        while i < self.cpu_type.len()
            invariant
                i <= self.cpu_type@.len(),
                t@ == self.cpu_type@.subrange(0, i as int),
            decreases self.cpu_type@.len() - i,
        {
            t.push(self.cpu_type[i]);
            i += 1;
            assert(t@ =~= self.cpu_type@.subrange(0, i as int));
        }
        assert(t@ =~= self.cpu_type@);
        Core { id: self.id, cpu_type: t, enable_method: self.enable_method, cpu_release_addr: self.cpu_release_addr }
    }

    pub fn get_id(&self) -> (r: usize)
        ensures
            r == self.spec_id(),
    {
        self.id
    }

    pub fn get_cpu_type(&self) -> (r: &[u8])
        ensures
            r@ == self.spec_cpu_type(),
    {
        self.cpu_type.as_slice()
    }

    pub fn get_enable_method(&self) -> (r: CoreEnableMethod)
        ensures
            r == self.spec_enable_method(),
    {
        self.enable_method
    }

    pub fn get_cpu_release_addr(&self) -> (r: usize)
        ensures
            r == self.spec_cpu_release_addr(),
    {
        self.cpu_release_addr
    }
}

/// A core type name of `CPU_TYPE_LEN` bytes: the first bytes of `name`,
/// padded with zeros.
pub open spec fn padded_type(name: Seq<u8>) -> Seq<u8> {
    Seq::new(CPU_TYPE_LEN as nat, |i: int| if i < name.len() { name[i] } else { 0u8 })
}

/// System CPU configuration: `MAX_CORES` core slots, each core found being
/// stored in the slot of its id, the number of cores found, and which slots
/// hold a core.
pub struct CpuConfig {
    cores: Vec<Core>,
    count: usize,
    filled: Vec<bool>,
}

impl CpuConfig {
    /// The slots number `MAX_CORES`, and the count does not exceed it.
    pub closed spec fn wf(&self) -> bool {
        &&& self.cores@.len() == MAX_CORES
        &&& self.count <= MAX_CORES
        &&& self.filled@.len() == MAX_CORES
    }

    /// For each core slot, whether a core found is stored in it.
    pub closed spec fn filled(&self) -> Seq<bool> {
        self.filled@
    }

    /// All core slots.
    pub closed spec fn slots(&self) -> Seq<Core> {
        self.cores@
    }

    /// The number of cores recorded.
    pub closed spec fn count(&self) -> nat {
        self.count as nat
    }

    /// A well-formed configuration holds at most `MAX_CORES` cores, in
    /// `MAX_CORES` slots.
    pub proof fn lemma_count_bound(&self)
        requires
            self.wf(),
        ensures
            self.count() <= MAX_CORES,
            self.slots().len() == MAX_CORES,
    {
    }

    /// Constructs an empty configuration.
    pub fn new() -> (r: Self)
        ensures
            r.wf(),
            r.count() == 0,
            r.slots().len() == MAX_CORES,
            forall|i: int| 0 <= i < MAX_CORES ==> (#[trigger] r.slots()[i]).is_blank(),
            r.filled() == no_slots(),
    {
        let mut cores: Vec<Core> = Vec::new();
        while cores.len() < MAX_CORES
            invariant
                cores@.len() <= MAX_CORES,
                forall|i: int| 0 <= i < cores@.len() ==> (#[trigger] cores@[i]).is_blank(),
            decreases MAX_CORES - cores@.len(),
        {
            cores.push(Core::blank());
        }
        CpuConfig { cores, count: 0, filled: empty_slots() }
    }

    pub fn is_empty(&self) -> (r: bool)
        ensures
            r == (self.count() == 0),
    {
        self.count == 0
    }

    pub fn len(&self) -> (r: usize)
        ensures
            r == self.count(),
            self.wf() ==> r <= MAX_CORES,
    {
        self.count
    }

    /// The cores found: (copies of) the filled core slots, in slot order,
    /// which is the order of the cores' ids.
    pub fn cores(&self) -> (r: Vec<Core>)
        requires
            self.wf(),
        ensures
            r@.map_values(|c: Core| core_view(c)) == filled_cores(self.table(), self.filled(), MAX_CORES as nat),
            r@.len() <= MAX_CORES,
    {
        let mut r: Vec<Core> = Vec::new();
        let mut i: usize = 0;
        while i < MAX_CORES
            invariant
                i <= MAX_CORES,
                self.wf(),
                r@.map_values(|c: Core| core_view(c)) == filled_cores(self.table(), self.filled(), i as nat),
                r@.len() <= i,
            decreases MAX_CORES - i,
        {
            let ghost before = r@;
            if self.filled[i] {
                let c = self.cores[i].duplicate();
                r.push(c);
                proof {
                    assert(r@.map_values(|c: Core| core_view(c)) =~= before.map_values(|c: Core| core_view(c)).push(
                        self.table()[i as int],
                    ));
                }
            }
            i += 1;
        }
        r
    }
}

/// Tags for expected property names and values.
#[derive(Copy, Clone, Debug, PartialEq, Eq, Structural)]
pub enum StringTag {
    DtbPropCompatible,
    DtbPropEnableMethod,
    DtbPropCpuReleaseAddr,
    DtbPropReg,
    DtbValueSpinTable,
    DtbValuePsci,
}

/// The tag of a property name or value, if it is one of the expected ones.
pub open spec fn string_tag(s: Seq<u8>) -> Option<StringTag> {
    if s == "compatible".spec_bytes() {
        Some(StringTag::DtbPropCompatible)
    } else if s == "enable-method".spec_bytes() {
        Some(StringTag::DtbPropEnableMethod)
    } else if s == "cpu-release-addr".spec_bytes() {
        Some(StringTag::DtbPropCpuReleaseAddr)
    } else if s == "reg".spec_bytes() {
        Some(StringTag::DtbPropReg)
    } else if s == "spin-table".spec_bytes() {
        Some(StringTag::DtbValueSpinTable)
    } else if s == "psci".spec_bytes() {
        Some(StringTag::DtbValuePsci)
    } else {
        None
    }
}

/// Finds the tag of a property name or value.
pub fn find_tag(s: &[u8]) -> (r: Option<StringTag>)
    ensures
        r == string_tag(s@),
{
    if bytes_eq(s, "compatible".as_bytes()) {
        Some(StringTag::DtbPropCompatible)
    } else if bytes_eq(s, "enable-method".as_bytes()) {
        Some(StringTag::DtbPropEnableMethod)
    } else if bytes_eq(s, "cpu-release-addr".as_bytes()) {
        Some(StringTag::DtbPropCpuReleaseAddr)
    } else if bytes_eq(s, "reg".as_bytes()) {
        Some(StringTag::DtbPropReg)
    } else if bytes_eq(s, "spin-table".as_bytes()) {
        Some(StringTag::DtbValueSpinTable)
    } else if bytes_eq(s, "psci".as_bytes()) {
        Some(StringTag::DtbValuePsci)
    } else {
        None
    }
}

/// What a `cpu@N` node says of its core: id, type name, enable method and
/// release address.
pub type CoreView = (usize, Seq<u8>, CoreEnableMethod, usize);

/// The view of a core.
pub open spec fn core_view(c: Core) -> CoreView {
    (c.spec_id(), c.spec_cpu_type(), c.spec_enable_method(), c.spec_cpu_release_addr())
}

/// A `compatible` property: the NUL-terminated type name, copied over the
/// first bytes of the current name (at most `CPU_TYPE_LEN`).
pub open spec fn compatible_of(cur: Seq<u8>, value: Seq<u8>) -> Result<Seq<u8>, DtbError> {
    match nul_terminated(value) {
        None => Err(DtbError::InvalidDtb),
        Some(name) => Ok(
            Seq::new(
                CPU_TYPE_LEN as nat,
                |i: int| if i < name.len() { name[i] } else { cur[i] },
            ),
        ),
    }
}

/// An `enable-method` property: only spin tables are supported.
pub open spec fn enable_method_of(value: Seq<u8>) -> Result<CoreEnableMethod, DtbError> {
    match nul_terminated(value) {
        None => Err(DtbError::InvalidDtb),
        Some(name) => match string_tag(name) {
            None => Err(DtbError::UnknownValue),
            Some(StringTag::DtbValueSpinTable) => Ok(CoreEnableMethod::SpinTable),
            Some(_) => Err(DtbError::UnsupportedValue),
        },
    }
}

/// A `cpu-release-addr` property: a 32-bit or a 64-bit address (it should
/// always be 64-bit, but there are trees with 32-bit addresses).
pub open spec fn release_addr_of(value: Seq<u8>) -> Result<usize, DtbError> {
    if value.len() == 4 {
        Ok(cells_value(value, 0, 1).unwrap() as usize)
    } else if value.len() == 8 {
        let a = cells_value(value, 0, 2).unwrap();
        if a <= usize::MAX {
            Ok(a as usize)
        } else {
            Err(DtbError::InvalidDtb)
        }
    } else {
        Err(DtbError::UnsupportedValue)
    }
}

/// A `reg` property: the core number in the first cell.
pub open spec fn reg_of(value: Seq<u8>) -> Result<usize, DtbError> {
    match cells_value(value, 0, 1) {
        None => Err(DtbError::InvalidDtb),
        Some(id) => Ok(id as usize),
    }
}

/// The core described so far, after one more property.
pub open spec fn cpu_prop_step(st: CoreView, p: DtbProperty) -> Result<CoreView, DtbError> {
    match string_tag(p.name@) {
        Some(StringTag::DtbPropCompatible) => match compatible_of(st.1, p.value@) {
            Err(e) => Err(e),
            Ok(t) => Ok((st.0, t, st.2, st.3)),
        },
        Some(StringTag::DtbPropEnableMethod) => match enable_method_of(p.value@) {
            Err(e) => Err(e),
            Ok(m) => Ok((st.0, st.1, m, st.3)),
        },
        Some(StringTag::DtbPropCpuReleaseAddr) => match release_addr_of(p.value@) {
            Err(e) => Err(e),
            Ok(a) => Ok((st.0, st.1, st.2, a)),
        },
        Some(StringTag::DtbPropReg) => match reg_of(p.value@) {
            Err(e) => Err(e),
            Ok(id) => Ok((id, st.1, st.2, st.3)),
        },
        _ => Ok(st),
    }
}

/// The core described by the properties of a `cpu@N` node, read in order:
/// an unknown id (`usize::MAX`), an all-zero type, no enable method and no
/// release address until properties say otherwise.
pub open spec fn cpu_scan(props: Seq<DtbProperty>) -> Result<CoreView, DtbError>
    decreases props.len(),
{
    if props.len() == 0 {
        Ok((usize::MAX, Seq::new(CPU_TYPE_LEN as nat, |i: int| 0u8), CoreEnableMethod::Invalid, 0usize))
    } else {
        match cpu_scan(props.drop_last()) {
            Err(e) => Err(e),
            Ok(st) => cpu_prop_step(st, props.last()),
        }
    }
}

/// Whether a node is a `cpu@N` node (the digits are not checked).
pub open spec fn is_cpu_node(name: Seq<u8>) -> bool {
    name.len() >= 5 && "cpu@".spec_bytes().len() <= name.len() && name.subrange(
        0,
        "cpu@".spec_bytes().len() as int,
    ) == "cpu@".spec_bytes()
}

/// The number of `cpu@N` nodes.
pub open spec fn cpu_nodes(nodes: Seq<DtbNode>) -> nat
    decreases nodes.len(),
{
    if nodes.len() == 0 {
        0
    } else {
        cpu_nodes(nodes.drop_last()) + if is_cpu_node(nodes.last().name@) {
            1nat
        } else {
            0nat
        }
    }
}

/// No slot filled yet.
pub open spec fn no_slots() -> Seq<bool> {
    Seq::new(MAX_CORES as nat, |i: int| false)
}

/// The cores in the filled slots among the first `n`, in slot order.
pub open spec fn filled_cores(slots: Seq<CoreView>, filled: Seq<bool>, n: nat) -> Seq<CoreView>
    decreases n,
{
    if n == 0 {
        Seq::empty()
    } else {
        let prev = filled_cores(slots, filled, (n - 1) as nat);
        if filled[n - 1] {
            prev.push(slots[n - 1])
        } else {
            prev
        }
    }
}

/// `MAX_CORES` slot flags, none set.
fn empty_slots() -> (r: Vec<bool>)
    ensures
        r@ == no_slots(),
{
    let mut filled: Vec<bool> = Vec::new();
    while filled.len() < MAX_CORES
        invariant
            filled@.len() <= MAX_CORES,
            forall|i: int| 0 <= i < filled@.len() ==> !filled@[i],
        decreases MAX_CORES - filled@.len(),
    {
        filled.push(false);
    }
    assert(filled@ =~= no_slots());
    filled
}

/// The core table, count and filled slots after scanning the nodes in order:
/// each `cpu@N` node's core goes into the slot of its id, which is then
/// filled, and counts once (a core id of `MAX_CORES` or more is an error).
pub open spec fn scan_nodes(table: Seq<CoreView>, count: nat, filled: Seq<bool>, nodes: Seq<DtbNode>) -> Result<
    (Seq<CoreView>, nat, Seq<bool>),
    DtbError,
>
    decreases nodes.len(),
{
    if nodes.len() == 0 {
        Ok((table, count, filled))
    } else {
        match scan_nodes(table, count, filled, nodes.drop_last()) {
            Err(e) => Err(e),
            Ok(prev) => {
                let n = nodes.last();
                if !is_cpu_node(n.name@) {
                    Ok(prev)
                } else {
                    match cpu_scan(n.properties@) {
                        Err(e) => Err(e),
                        Ok(st) => if st.0 >= MAX_CORES {
                            Err(DtbError::InvalidDtb)
                        } else {
                            Ok((prev.0.update(st.0 as int, st), prev.1 + 1, prev.2.update(st.0 as int, true)))
                        },
                    }
                }
            },
        }
    }
}

impl CpuConfig {
    /// The views of all core slots.
    pub open spec fn table(&self) -> Seq<CoreView> {
        self.slots().map_values(|c: Core| core_view(c))
    }
}

/// Scans for DTB CPU nodes, recording each core in a CPU configuration.
pub struct DtbCpuScanner {
    config: CpuConfig,
}

impl DtbCpuScanner {
    /// The configuration being filled.
    pub closed spec fn config(&self) -> CpuConfig {
        self.config
    }

    /// For each core slot, whether this scanner has stored a core in it.
    pub closed spec fn filled_slots(&self) -> Seq<bool> {
        self.config.filled@
    }

    /// Constructs a new scanner filling `config`, with no slot marked as
    /// filled yet.
    pub fn new(config: CpuConfig) -> (r: Self)
        ensures
            r.config().slots() == config.slots(),
            r.config().count() == config.count(),
            config.wf() ==> r.config().wf(),
            r.filled_slots() == no_slots(),
    {
        let mut config = config;
        config.filled = empty_slots();
        DtbCpuScanner { config }
    }

    /// Returns the configuration filled so far.
    pub fn into_config(self) -> (r: CpuConfig)
        ensures
            r == self.config(),
    {
        self.config
    }

    /// Reads the `compatible` property with the CPU name into the type name.
    fn read_compatible_property(&self, cpu_type: &mut Vec<u8>, value: &[u8]) -> (r: Result<(), DtbError>)
        requires
            old(cpu_type)@.len() == CPU_TYPE_LEN,
        ensures
            match compatible_of(old(cpu_type)@, value@) {
                Err(e) => r == Err::<(), DtbError>(e),
                Ok(t) => r is Ok && final(cpu_type)@ == t,
            },
    {
        let compatible = match read_string(value) {
            Some(s) => s,
            None => return Err(DtbError::InvalidDtb),
        };
        let len = if compatible.len() < cpu_type.len() {
            compatible.len()
        } else {
            cpu_type.len()
        };
        let ghost cur = cpu_type@;
        let mut i: usize = 0;
        while i < len
            invariant
                len <= compatible@.len(),
                len <= CPU_TYPE_LEN,
                len == (if compatible@.len() < CPU_TYPE_LEN { compatible@.len() } else { CPU_TYPE_LEN as nat }),
                cur.len() == CPU_TYPE_LEN,
                i <= len,
                cpu_type@.len() == CPU_TYPE_LEN,
                forall|j: int| 0 <= j < i ==> #[trigger] cpu_type@[j] == compatible@[j],
                forall|j: int| i <= j < CPU_TYPE_LEN ==> #[trigger] cpu_type@[j] == cur[j],
            decreases len - i,
        {
            cpu_type.set(i, compatible[i]);
            i += 1;
        }
        proof {
            assert(cpu_type@ =~= Seq::new(
                CPU_TYPE_LEN as nat,
                |i: int| if i < compatible@.len() { compatible@[i] } else { cur[i] },
            ));
        }
        Ok(())
    }

    /// Reads the `enable-method` property.
    fn read_enable_method(&self, value: &[u8]) -> (r: Result<CoreEnableMethod, DtbError>)
        ensures
            r == enable_method_of(value@),
    {
        let enable_method = match read_string(value) {
            Some(s) => s,
            None => return Err(DtbError::InvalidDtb),
        };
        match find_tag(enable_method.as_slice()) {
            None => Err(DtbError::UnknownValue),
            Some(StringTag::DtbValueSpinTable) => Ok(CoreEnableMethod::SpinTable),
            Some(_) => Err(DtbError::UnsupportedValue),
        }
    }

    /// Reads the `cpu-release-addr` property.
    fn read_cpu_release_addr(&self, value: &[u8]) -> (r: Result<usize, DtbError>)
        ensures
            r == release_addr_of(value@),
    {
        if value.len() == 4 {
            let a = read_cells(value, 0, 1).unwrap();
            proof {
                lemma_one_cell(value@);
            }
            Ok(a as usize)
        } else if value.len() == 8 {
            let a = read_cells(value, 0, 2).unwrap();
            if a <= usize::MAX as u64 {
                Ok(a as usize)
            } else {
                Err(DtbError::InvalidDtb)
            }
        } else {
            Err(DtbError::UnsupportedValue)
        }
    }

    /// Reads the `reg` property with the core number.
    fn read_reg(&self, value: &[u8]) -> (r: Result<usize, DtbError>)
        ensures
            r == reg_of(value@),
    {
        match read_cells(value, 0, 1) {
            None => Err(DtbError::InvalidDtb),
            Some(id) => {
                proof {
                    lemma_one_cell(value@);
                }
                Ok(id as usize)
            },
        }
    }

    /// Scans a `cpu@N` node and adds its core to the configuration, in the
    /// slot of its id. A core id of `MAX_CORES` or more is an error.
    pub fn scan_cpu_node(&mut self, props: &[DtbProperty]) -> (r: Result<(), DtbError>)
        requires
            old(self).config().wf(),
            old(self).config().count() < MAX_CORES,
            old(self).filled_slots().len() == MAX_CORES,
        ensures
            final(self).config().wf(),
            final(self).filled_slots().len() == MAX_CORES,
            match cpu_scan(props@) {
                Err(e) => r == Err::<(), DtbError>(e) && final(self).config().table() == old(self).config().table()
                    && final(self).config().count() == old(self).config().count()
                    && final(self).filled_slots() == old(self).filled_slots(),
                Ok(st) => if st.0 >= MAX_CORES {
                    &&& r == Err::<(), DtbError>(DtbError::InvalidDtb)
                    &&& final(self).config().table() == old(self).config().table()
                    &&& final(self).config().count() == old(self).config().count()
                    &&& final(self).filled_slots() == old(self).filled_slots()
                } else {
                    &&& r is Ok
                    &&& final(self).config().table() == old(self).config().table().update(st.0 as int, st)
                    &&& final(self).config().count() == old(self).config().count() + 1
                    &&& final(self).filled_slots() == old(self).filled_slots().update(st.0 as int, true)
                },
            },
    {
        let mut id: usize = usize::MAX;
        let mut cpu_type: Vec<u8> = Vec::new();
        while cpu_type.len() < CPU_TYPE_LEN
            invariant
                cpu_type@.len() <= CPU_TYPE_LEN,
                forall|j: int| 0 <= j < cpu_type@.len() ==> cpu_type@[j] == 0u8,
            decreases CPU_TYPE_LEN - cpu_type@.len(),
        {
            cpu_type.push(0);
        }
        proof {
            assert(cpu_type@ =~= Seq::new(CPU_TYPE_LEN as nat, |i: int| 0u8));
            assert(props@.subrange(0, 0) =~= Seq::<DtbProperty>::empty());
        }
        let mut enable_method = CoreEnableMethod::Invalid;
        let mut cpu_release_addr: usize = 0;
        let mut i: usize = 0;
        while i < props.len()
            invariant
                i <= props@.len(),
                cpu_type@.len() == CPU_TYPE_LEN,
                *self == *old(self),
                self.config().wf(),
                self.filled_slots().len() == MAX_CORES,
                cpu_scan(props@.subrange(0, i as int)) == Ok::<CoreView, DtbError>(
                    (id, cpu_type@, enable_method, cpu_release_addr),
                ),
            decreases props@.len() - i,
        {
            let p = &props[i];
            proof {
                assert(props@.subrange(0, i + 1).drop_last() =~= props@.subrange(0, i as int));
                assert(props@.subrange(0, i + 1).last() == props@[i as int]);
            }
            match find_tag(p.name.as_slice()) {
                Some(StringTag::DtbPropCompatible) => {
                    let res = self.read_compatible_property(&mut cpu_type, p.value.as_slice());
                    if let Err(e) = res {
                        proof {
                            lemma_cpu_scan_err(props@, i + 1);
                        }
                        return Err(e);
                    }
                },
                Some(StringTag::DtbPropEnableMethod) => {
                    match self.read_enable_method(p.value.as_slice()) {
                        Err(e) => {
                            proof {
                                lemma_cpu_scan_err(props@, i + 1);
                            }
                            return Err(e);
                        },
                        Ok(m) => enable_method = m,
                    }
                },
                Some(StringTag::DtbPropCpuReleaseAddr) => {
                    match self.read_cpu_release_addr(p.value.as_slice()) {
                        Err(e) => {
                            proof {
                                lemma_cpu_scan_err(props@, i + 1);
                            }
                            return Err(e);
                        },
                        Ok(a) => cpu_release_addr = a,
                    }
                },
                Some(StringTag::DtbPropReg) => {
                    match self.read_reg(p.value.as_slice()) {
                        Err(e) => {
                            proof {
                                lemma_cpu_scan_err(props@, i + 1);
                            }
                            return Err(e);
                        },
                        Ok(v) => id = v,
                    }
                },
                _ => {},
            }
            i += 1;
        }
        proof {
            assert(props@.subrange(0, props@.len() as int) =~= props@);
        }
        if id >= MAX_CORES {
            return Err(DtbError::InvalidDtb);
        }
        let core = Core::make(id, cpu_type.as_slice(), enable_method, cpu_release_addr);
        proof {
            assert(padded_type(cpu_type@) =~= cpu_type@);
        }
        self.config.cores.set(id, core);
        self.config.count = self.config.count + 1;
        self.config.filled.set(id, true);
        proof {
            assert(self.config.table() =~= old(self).config().table().update(id as int, (id, cpu_type@, enable_method, cpu_release_addr)));
        }
        Ok(())
    }

    /// Whether every core stored by this scanner is enabled through a spin
    /// table.
    pub fn all_filled_spin_table(&self) -> (r: bool)
        requires
            self.config().wf(),
            self.filled_slots().len() == MAX_CORES,
        ensures
            r == forall|i: int|
                0 <= i < MAX_CORES && #[trigger] self.filled_slots()[i] ==> self.config().table()[i].2
                    == CoreEnableMethod::SpinTable,
    {
        let mut j: usize = 0;
        while j < MAX_CORES
            invariant
                j <= MAX_CORES,
                self.config().wf(),
                self.filled_slots().len() == MAX_CORES,
                forall|i: int|
                    0 <= i < j && #[trigger] self.filled_slots()[i] ==> self.config().table()[i].2
                        == CoreEnableMethod::SpinTable,
            decreases MAX_CORES - j,
        {
            proof {
                assert(self.config().table()[j as int] == core_view(self.config().slots()[j as int]));
            }
            if self.config.filled[j] && self.config.cores[j].get_enable_method() != CoreEnableMethod::SpinTable {
                return false;
            }
            j += 1;
        }
        true
    }

    /// Scans a node: a `cpu@N` node adds its core. Returns whether scanning
    /// continues (always).
    pub fn scan_node(&mut self, node: &DtbNode) -> (r: Result<bool, DtbError>)
        requires
            old(self).config().wf(),
            old(self).filled_slots().len() == MAX_CORES,
            is_cpu_node(node.name@) ==> old(self).config().count() < MAX_CORES,
        ensures
            final(self).config().wf(),
            final(self).filled_slots().len() == MAX_CORES,
            !is_cpu_node(node.name@) ==> r == Ok::<bool, DtbError>(true) && *final(self) == *old(self),
            is_cpu_node(node.name@) ==> match cpu_scan(node.properties@) {
                Err(e) => r == Err::<bool, DtbError>(e) && final(self).config().table() == old(self).config().table()
                    && final(self).config().count() == old(self).config().count()
                    && final(self).filled_slots() == old(self).filled_slots(),
                Ok(st) => if st.0 >= MAX_CORES {
                    &&& r == Err::<bool, DtbError>(DtbError::InvalidDtb)
                    &&& final(self).config().table() == old(self).config().table()
                    &&& final(self).config().count() == old(self).config().count()
                    &&& final(self).filled_slots() == old(self).filled_slots()
                } else {
                    &&& r == Ok::<bool, DtbError>(true)
                    &&& final(self).config().table() == old(self).config().table().update(st.0 as int, st)
                    &&& final(self).config().count() == old(self).config().count() + 1
                    &&& final(self).filled_slots() == old(self).filled_slots().update(st.0 as int, true)
                },
            },
    {
        let name = node.name.as_slice();
        if name.len() >= 5 && has_prefix(name, "cpu@".as_bytes()) {
            let res = self.scan_cpu_node(node.properties.as_slice());
            if let Err(e) = res {
                return Err(e);
            }
        }
        Ok(true)
    }
}

/// A failure while reading the first properties of a node is the failure of
/// the whole node.
proof fn lemma_cpu_scan_err(props: Seq<DtbProperty>, k: int)
    requires
        0 <= k <= props.len(),
        cpu_scan(props.subrange(0, k)) is Err,
    ensures
        cpu_scan(props) == cpu_scan(props.subrange(0, k)),
    decreases props.len(),
{
    if k < props.len() {
        assert(props.drop_last().subrange(0, k) =~= props.subrange(0, k));
        lemma_cpu_scan_err(props.drop_last(), k);
    } else {
        assert(props.subrange(0, k) =~= props);
    }
}

proof fn lemma_one_cell(s: Seq<u8>)
    requires
        s.len() >= 4,
    ensures
        cells_value(s, 0, 1).unwrap() <= u32::MAX,
{
    vstd::arithmetic::power2::lemma2_to64();
    assert(crate::support::dtb::be_value(s, 0, 4) < 0x1_0000_0000) by {
        reveal_with_fuel(crate::support::dtb::be_value, 5);
    }
}

/// A failure while scanning the first nodes is the failure of the scan.
proof fn lemma_scan_nodes_err(table: Seq<CoreView>, nodes: Seq<DtbNode>, k: int)
    requires
        0 <= k <= nodes.len(),
        scan_nodes(table, 0, no_slots(), nodes.subrange(0, k)) is Err,
    ensures
        scan_nodes(table, 0, no_slots(), nodes) == scan_nodes(table, 0, no_slots(), nodes.subrange(0, k)),
    decreases nodes.len(),
{
    if k < nodes.len() {
        assert(nodes.drop_last().subrange(0, k) =~= nodes.subrange(0, k));
        lemma_scan_nodes_err(table, nodes.drop_last(), k);
    } else {
        assert(nodes.subrange(0, k) =~= nodes);
    }
}

/// A prefix holds no more `cpu@N` nodes than the whole list.
proof fn lemma_cpu_nodes_prefix(nodes: Seq<DtbNode>, k: int)
    requires
        0 <= k <= nodes.len(),
    ensures
        cpu_nodes(nodes.subrange(0, k)) <= cpu_nodes(nodes),
    decreases nodes.len(),
{
    if k < nodes.len() {
        assert(nodes.drop_last().subrange(0, k) =~= nodes.subrange(0, k));
        lemma_cpu_nodes_prefix(nodes.drop_last(), k);
    } else {
        assert(nodes.subrange(0, k) =~= nodes);
    }
}

/// Gets the CPU configuration from the device tree nodes, in tree order.
///
/// Each `cpu@N` node records its core in the configuration, which must be
/// empty at first, in the slot of its id. Returns true if the nodes could be
/// read, at least one core was found and every core found is enabled through
/// a spin table.
pub fn get_cpu_config(config: &mut CpuConfig, nodes: &[DtbNode]) -> (r: bool)
    requires
        old(config).wf(),
        old(config).count() == 0,
        cpu_nodes(nodes@) <= MAX_CORES,
    ensures
        final(config).wf(),
        r == (match scan_nodes(old(config).table(), 0, no_slots(), nodes@) {
            Err(_) => false,
            Ok(res) => res.1 > 0 && forall|i: int|
                0 <= i < MAX_CORES && #[trigger] res.2[i] ==> res.0[i].2 == CoreEnableMethod::SpinTable,
        }),
        scan_nodes(old(config).table(), 0, no_slots(), nodes@) matches Ok(res) ==> final(config).table() == res.0
            && final(config).count() == res.1 && final(config).filled() == res.2,
{
    let mut tmp = CpuConfig::new();
    std::mem::swap(&mut tmp, config);
    let ghost table0 = tmp.table();
    let mut scanner = DtbCpuScanner::new(tmp);
    let mut i: usize = 0;
    proof {
        assert(nodes@.subrange(0, 0) =~= Seq::<DtbNode>::empty());
    }
    while i < nodes.len()
        invariant
            i <= nodes@.len(),
            table0 == old(config).table(),
            cpu_nodes(nodes@) <= MAX_CORES,
            scanner.config().wf(),
            scanner.filled_slots().len() == MAX_CORES,
            config.wf(),
            scanner.config().count() == cpu_nodes(nodes@.subrange(0, i as int)),
            scan_nodes(table0, 0, no_slots(), nodes@.subrange(0, i as int)) == Ok::<(Seq<CoreView>, nat, Seq<bool>), DtbError>(
                (scanner.config().table(), scanner.config().count(), scanner.filled_slots()),
            ),
        decreases nodes@.len() - i,
    {
        proof {
            assert(nodes@.subrange(0, i + 1).drop_last() =~= nodes@.subrange(0, i as int));
            assert(nodes@.subrange(0, i + 1).last() == nodes@[i as int]);
            lemma_cpu_nodes_prefix(nodes@, i + 1);
        }
        let res = scanner.scan_node(&nodes[i]);
        if res.is_err() {
            *config = scanner.into_config();
            proof {
                lemma_scan_nodes_err(table0, nodes@, i + 1);
            }
            return false;
        }
        i += 1;
    }
    proof {
        assert(nodes@.subrange(0, nodes@.len() as int) =~= nodes@);
    }
    let ok = if scanner.config.count != 0 {
        scanner.all_filled_spin_table()
    } else {
        false
    };
    proof {
        let res = scan_nodes(table0, 0, no_slots(), nodes@)->Ok_0;
        assert(res.2 == scanner.filled_slots());
        assert(res.0 == scanner.config().table());
    }
    *config = scanner.into_config();
    ok
}

} // verus!
