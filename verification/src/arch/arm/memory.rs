//! ARM memory layout scanning of the device tree.
//!
//! The scanner reads the root node's cell configuration and records the
//! `reg` ranges of every memory node, as the peripheral memory scanner does,
//! except that an entry whose base is beyond the address space is skipped and
//! a size running past the end of the address space is clamped to it.

use vstd::prelude::*;
use crate::peripherals::memory::{
    device_node_spec, lemma_memory_scan_err, memory_layout_spec, memory_scan_spec, nonempty_ranges, trim_ranges,
    DtbMemoryScanner as Scanner,
};
use crate::support::dtb::{cell_config, DtbError, DtbNode, DtbProperty};
use crate::support::range::Range;

verus! {

/// Scans for DTB memory nodes.
pub struct DtbMemoryScanner {
    inner: Scanner,
}

impl DtbMemoryScanner {
    /// The memory ranges found so far, in order.
    pub closed spec fn found(&self) -> Seq<Range> {
        self.inner.found()
    }

    /// The root node's cell configuration.
    pub closed spec fn root_cells(&self) -> (u32, u32) {
        (self.inner.root_addr_cells(), self.inner.root_size_cells())
    }

    /// Whether the scanner skips `reg` entries whose base is beyond the
    /// address space and clamps sizes to its end.
    pub closed spec fn clamping(&self) -> bool {
        self.inner.clamps()
    }

    /// Constructs a new scanner with no range and no cell configuration; it
    /// skips `reg` entries whose base is beyond the address space and clamps
    /// sizes to the end of the address space.
    pub fn new() -> (r: Self)
        ensures
            r.found() == Seq::<Range>::empty(),
            r.root_cells() == (0u32, 0u32),
            r.clamping(),
    {
        DtbMemoryScanner { inner: Scanner::new_clamping() }
    }

    /// Returns the memory ranges found.
    pub fn into_ranges(self) -> (r: Vec<Range>)
        ensures
            r@ == self.found(),
    {
        self.inner.into_ranges()
    }

    /// Scans a node: the root node (empty name) gives the cell
    /// configuration, any other node may be a memory node. Returns whether
    /// scanning continues.
    pub fn scan_node(&mut self, name: &[u8], props: &[DtbProperty]) -> (r: Result<bool, DtbError>)
        ensures
            final(self).clamping() == old(self).clamping(),
            name@.len() == 0 ==> final(self).found() == old(self).found() && match cell_config(
                props@,
                old(self).root_cells().0,
                old(self).root_cells().1,
            ) {
                Err(e) => r == Err::<bool, DtbError>(e),
                Ok(c) => r == Ok::<bool, DtbError>(true) && final(self).root_cells() == c,
            },
            name@.len() != 0 ==> final(self).root_cells() == old(self).root_cells() && match device_node_spec(
                props@,
                old(self).root_cells().0,
                old(self).root_cells().1,
                old(self).found(),
                old(self).clamping(),
            ) {
                Err(e) => r == Err::<bool, DtbError>(e),
                Ok(rs) => r == Ok::<bool, DtbError>(true) && final(self).found() == rs,
            },
    {
        self.inner.scan_node(name, props)
    }
}

/// Gets the system memory layout from the device tree nodes, in tree order,
/// into `config`, which must be empty: the non-empty memory ranges. Returns
/// true if the tree could be read and provides at least one non-empty memory
/// range, false otherwise.
pub fn get_memory_layout(config: &mut Vec<Range>, nodes: &[DtbNode]) -> (r: bool)
    requires
        old(config)@.len() == 0,
    ensures
        r == memory_layout_spec(nodes@, true) is Some,
        memory_scan_spec(nodes@, true) matches Ok(st) ==> final(config)@ == nonempty_ranges(st.2),
        memory_scan_spec(nodes@, true) is Err ==> final(config)@.len() == 0,
{
    let mut scanner = DtbMemoryScanner::new();
    let mut i: usize = 0;
    proof {
        assert(nodes@.subrange(0, 0) =~= Seq::<DtbNode>::empty());
    }
    while i < nodes.len()
        invariant
            i <= nodes@.len(),
            config@.len() == 0,
            scanner.clamping(),
            memory_scan_spec(nodes@.subrange(0, i as int), true) == Ok::<(u32, u32, Seq<Range>), DtbError>(
                (scanner.root_cells().0, scanner.root_cells().1, scanner.found()),
            ),
        decreases nodes@.len() - i,
    {
        proof {
            assert(nodes@.subrange(0, i + 1).drop_last() =~= nodes@.subrange(0, i as int));
            assert(nodes@.subrange(0, i + 1).last() == nodes@[i as int]);
        }
        let n = &nodes[i];
        match scanner.scan_node(n.name.as_slice(), n.properties.as_slice()) {
            Err(_) => {
                proof {
                    lemma_memory_scan_err(nodes@, i + 1, true);
                }
                return false;
            },
            Ok(_) => {},
        }
        i += 1;
    }
    proof {
        assert(nodes@.subrange(0, nodes@.len() as int) =~= nodes@);
    }
    let ranges = scanner.into_ranges();
    *config = trim_ranges(ranges.as_slice());
    config.len() != 0
}

} // verus!
