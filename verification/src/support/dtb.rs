//! Decoded device tree nodes and property value readers.
//!
//! A flattened device tree is decoded into nodes, each with its name (unit
//! address included) and its properties in order; a property is its name and
//! its raw value bytes. Values are big-endian: a cell is a 32-bit word and a
//! number spans one or two cells.

use vstd::prelude::*;
use vstd::string::StringSliceAdditionalSpecFns;
use vstd::arithmetic::power2::{pow2, lemma2_to64, lemma_pow2_adds, lemma_pow2_strictly_increases};

verus! {

/// A property of a device tree node: its name and raw value bytes.
#[derive(Clone, Debug)]
pub struct DtbProperty {
    pub name: Vec<u8>,
    pub value: Vec<u8>,
}

/// A device tree node: its name and its properties in order. The root node
/// has an empty name.
#[derive(Clone, Debug)]
pub struct DtbNode {
    pub name: Vec<u8>,
    pub properties: Vec<DtbProperty>,
}

/// Device tree errors.
#[derive(Copy, Clone, Debug, PartialEq, Eq, Structural)]
pub enum DtbError {
    /// The tree is malformed.
    InvalidDtb,
    /// A property holds a value that is not known.
    UnknownValue,
    /// A property holds a known value that is not supported.
    UnsupportedValue,
}

/// The big-endian number in the `n` bytes of `s` starting at `off`.
pub open spec fn be_value(s: Seq<u8>, off: int, n: nat) -> nat
    decreases n,
{
    if n == 0 {
        0
    } else {
        be_value(s, off, (n - 1) as nat) * 256 + s[off + n - 1] as nat
    }
}

/// The number of `cells` cells starting at byte `off` of a value: `None` when
/// the value is too short or the number spans more than two cells (zero cells
/// read as 0).
pub open spec fn cells_value(s: Seq<u8>, off: int, cells: u32) -> Option<u64> {
    if cells > 2 || off + 4 * cells > s.len() {
        None
    } else {
        Some(be_value(s, off, (4 * cells) as nat) as u64)
    }
}

pub proof fn lemma_be_value_bound(s: Seq<u8>, off: int, n: nat)
    requires
        n <= 8,
        0 <= off,
        off + n <= s.len(),
    ensures
        be_value(s, off, n) < pow2(8 * n),
    decreases n,
{
    lemma2_to64();
    if n > 0 {
        let k: nat = (8 * (n - 1)) as nat;
        lemma_be_value_bound(s, off, (n - 1) as nat);
        lemma_pow2_adds(k, 8);
        assert(k + 8 == 8 * n);
        let b = be_value(s, off, (n - 1) as nat);
        let p = pow2(k);
        let c = s[off + n - 1] as nat;
        assert(b * 256 + c < p * 256) by (nonlinear_arith)
            requires
                b < p,
                c < 256,
        ;
    }
}

/// Reads the number in `cells` cells (at most two) at byte `off` of a value.
pub fn read_cells(v: &[u8], off: usize, cells: u32) -> (r: Option<u64>)
    ensures
        r == cells_value(v@, off as int, cells),
{
    if cells > 2 || off > v.len() || v.len() - off < 4 * (cells as usize) {
        return None;
    }
    let n = 4 * (cells as usize);
    let vlen = v.len();
    let mut acc: u64 = 0;
    let mut i: usize = 0;
    while i < n
        invariant
            vlen == v@.len(),
            n == 4 * cells,
            cells <= 2,
            off + n <= v@.len(),
            i <= n,
            acc == be_value(v@, off as int, i as nat),
        decreases n - i,
    {
        proof {
            lemma2_to64();
            lemma_be_value_bound(v@, off as int, (i + 1) as nat);
            if i + 1 < 8 {
                lemma_pow2_strictly_increases((8 * (i + 1)) as nat, 64);
            }
            assert(pow2((8 * (i + 1)) as nat) <= 0x1_0000_0000_0000_0000);
            assert(be_value(v@, off as int, (i + 1) as nat) == acc * 256 + (v@[off + i] as nat));
        }
        acc = acc * 256 + v[off + i] as u64;
        i += 1;
    }
    Some(acc)
}

/// The bytes of a value before its first NUL byte, `None` when it has none.
pub open spec fn nul_terminated(s: Seq<u8>) -> Option<Seq<u8>> {
    if exists|i: int| 0 <= i < s.len() && s[i] == 0 {
        let i = choose|i: int| 0 <= i < s.len() && s[i] == 0 && forall|j: int| 0 <= j < i ==> s[j] != 0;
        Some(s.subrange(0, i))
    } else {
        None
    }
}

/// Reads the NUL-terminated string at the start of a value.
pub fn read_string(v: &[u8]) -> (r: Option<Vec<u8>>)
    ensures
        r matches Some(s) ==> nul_terminated(v@) == Some(s@),
        r is None ==> nul_terminated(v@) is None,
{
    let mut out: Vec<u8> = Vec::new();
    let mut i: usize = 0;
    while i < v.len()
        invariant
            i <= v@.len(),
            out@ == v@.subrange(0, i as int),
            forall|j: int| 0 <= j < i ==> v@[j] != 0,
        decreases v@.len() - i,
    {
        if v[i] == 0 {
            proof {
                let k = choose|k: int| 0 <= k < v@.len() && v@[k] == 0 && forall|j: int| 0 <= j < k ==> v@[j] != 0;
                assert(k == i as int) by {
                    if k < i {
                        assert(v@[k] != 0);
                    } else if k > i {
                        assert(v@[i as int] != 0);
                    }
                }
            }
            return Some(out);
        }
        out.push(v[i]);
        i += 1;
        assert(out@ =~= v@.subrange(0, i as int));
    }
    None
}

/// Whether two byte strings are equal.
pub fn bytes_eq(a: &[u8], b: &[u8]) -> (r: bool)
    ensures
        r == (a@ == b@),
{
    if a.len() != b.len() {
        return false;
    }
    let mut i: usize = 0;
    while i < a.len()
        invariant
            a@.len() == b@.len(),
            i <= a@.len(),
            forall|j: int| 0 <= j < i ==> a@[j] == b@[j],
        decreases a@.len() - i,
    {
        if a[i] != b[i] {
            return false;
        }
        i += 1;
    }
    assert(a@ =~= b@);
    true
}

/// Whether `name` starts with the byte string `prefix`.
pub fn has_prefix(name: &[u8], prefix: &[u8]) -> (r: bool)
    ensures
        r == (prefix@.len() <= name@.len() && name@.subrange(0, prefix@.len() as int) == prefix@),
{
    if prefix.len() > name.len() {
        return false;
    }
    let mut i: usize = 0;
    while i < prefix.len()
        invariant
            prefix@.len() <= name@.len(),
            i <= prefix@.len(),
            forall|j: int| 0 <= j < i ==> name@[j] == prefix@[j],
        decreases prefix@.len() - i,
    {
        if name[i] != prefix[i] {
            assert(name@.subrange(0, prefix@.len() as int)[i as int] != prefix@[i as int]);
            return false;
        }
        i += 1;
    }
    assert(name@.subrange(0, prefix@.len() as int) =~= prefix@);
    true
}

/// The `#address-cells` and `#size-cells` of a node given its properties, in
/// order, and the values inherited from its parent.
pub open spec fn cell_config(props: Seq<DtbProperty>, da: u32, ds: u32) -> Result<(u32, u32), DtbError>
    decreases props.len(),
{
    if props.len() == 0 {
        Ok((da, ds))
    } else {
        match cell_config(props.drop_last(), da, ds) {
            Err(e) => Err(e),
            Ok(c) => {
                let p = props.last();
                if p.name@ == "#address-cells".spec_bytes() {
                    match cells_value(p.value@, 0, 1) {
                        None => Err(DtbError::InvalidDtb),
                        Some(v) => Ok((v as u32, c.1)),
                    }
                } else if p.name@ == "#size-cells".spec_bytes() {
                    match cells_value(p.value@, 0, 1) {
                        None => Err(DtbError::InvalidDtb),
                        Some(v) => Ok((c.0, v as u32)),
                    }
                } else {
                    Ok(c)
                }
            },
        }
    }
}

proof fn lemma_cell_config_err(props: Seq<DtbProperty>, da: u32, ds: u32, k: int)
    requires
        0 <= k <= props.len(),
        cell_config(props.subrange(0, k), da, ds) is Err,
    ensures
        cell_config(props, da, ds) == cell_config(props.subrange(0, k), da, ds),
    decreases props.len(),
{
    if k < props.len() {
        assert(props.drop_last().subrange(0, k) =~= props.subrange(0, k));
        lemma_cell_config_err(props.drop_last(), da, ds, k);
    } else {
        assert(props.subrange(0, k) =~= props);
    }
}

/// Reads a node's cell configuration: `#address-cells` and `#size-cells`,
/// defaulting to the parent's.
pub fn get_cell_config(props: &[DtbProperty], default_addr_cells: u32, default_size_cells: u32) -> (r: Result<(u32, u32), DtbError>)
    ensures
        r == cell_config(props@, default_addr_cells, default_size_cells),
{
    let mut addr_cells = default_addr_cells;
    let mut size_cells = default_size_cells;
    let mut i: usize = 0;
    proof {
        assert(props@.subrange(0, 0) =~= Seq::<DtbProperty>::empty());
    }
    while i < props.len()
        invariant
            i <= props@.len(),
            cell_config(props@.subrange(0, i as int), default_addr_cells, default_size_cells) == Ok::<(u32, u32), DtbError>(
                (addr_cells, size_cells),
            ),
        decreases props@.len() - i,
    {
        let p = &props[i];
        proof {
            assert(props@.subrange(0, i + 1).drop_last() =~= props@.subrange(0, i as int));
            assert(props@.subrange(0, i + 1).last() == props@[i as int]);
        }
        if bytes_eq(p.name.as_slice(), "#address-cells".as_bytes()) {
            match read_cells(p.value.as_slice(), 0, 1) {
                None => {
                    proof {
                        lemma_cell_config_err(props@, default_addr_cells, default_size_cells, i + 1);
                    }
                    return Err(DtbError::InvalidDtb);
                },
                Some(v) => {
                    proof {
                        lemma_cell_fits(p.value@, 0);
                    }
                    addr_cells = v as u32;
                },
            }
        } else if bytes_eq(p.name.as_slice(), "#size-cells".as_bytes()) {
            match read_cells(p.value.as_slice(), 0, 1) {
                None => {
                    proof {
                        lemma_cell_config_err(props@, default_addr_cells, default_size_cells, i + 1);
                    }
                    return Err(DtbError::InvalidDtb);
                },
                Some(v) => {
                    proof {
                        lemma_cell_fits(p.value@, 0);
                    }
                    size_cells = v as u32;
                },
            }
        }
        i += 1;
    }
    proof {
        assert(props@.subrange(0, props@.len() as int) =~= props@);
    }
    Ok((addr_cells, size_cells))
}

/// A one-cell number fits in 32 bits.
pub proof fn lemma_cell_fits(s: Seq<u8>, off: int)
    requires
        0 <= off,
        off + 4 <= s.len(),
    ensures
        cells_value(s, off, 1) matches Some(v) && v <= u32::MAX,
{
    lemma_be_value_bound(s, off, 4);
    lemma2_to64();
}

/// The index of the first property with the given name.
pub open spec fn first_named(props: Seq<DtbProperty>, name: Seq<u8>) -> Option<int> {
    if exists|i: int| 0 <= i < props.len() && props[i].name@ == name {
        Some(choose|i: int| 0 <= i < props.len() && props[i].name@ == name && forall|j: int| 0 <= j < i ==> props[j].name@ != name)
    } else {
        None
    }
}

/// Finds the first property with the given name.
pub fn find_property(props: &[DtbProperty], name: &[u8]) -> (r: Option<usize>)
    ensures
        r matches Some(i) ==> i < props@.len() && first_named(props@, name@) == Some(i as int),
        r is None ==> first_named(props@, name@) is None,
{
    let mut i: usize = 0;
    while i < props.len()
        invariant
            i <= props@.len(),
            forall|j: int| 0 <= j < i ==> props@[j].name@ != name@,
        decreases props@.len() - i,
    {
        if bytes_eq(props[i].name.as_slice(), name) {
            proof {
                let k = choose|k: int| 0 <= k < props@.len() && props@[k].name@ == name@ && forall|j: int| 0 <= j < k ==> props@[j].name@ != name@;
                assert(k == i as int) by {
                    if k < i {
                        assert(props@[k].name@ != name@);
                    } else if k > i {
                        assert(props@[i as int].name@ != name@);
                    }
                }
            }
            return Some(i);
        }
        i += 1;
    }
    None
}

} // verus!
