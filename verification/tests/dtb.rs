use ros_kernel::arch::arm::cpu::{get_cpu_config, CoreEnableMethod, CpuConfig, DtbCpuScanner};
use ros_kernel::arch::arm::soc as arm_soc;
use ros_kernel::arch::arm::memory as arm_memory;
use ros_kernel::peripherals::memory::{get_memory_layout, trim_ranges, DtbMemoryScanner};
use ros_kernel::support::range::Range;
use ros_kernel::peripherals::soc as periph_soc;
use ros_kernel::support::dtb::{read_cells, read_string, DtbError, DtbNode, DtbProperty};

fn prop(name: &str, value: &[u8]) -> DtbProperty {
    DtbProperty { name: name.as_bytes().to_vec(), value: value.to_vec() }
}

fn node(name: &str, properties: Vec<DtbProperty>) -> DtbNode {
    DtbNode { name: name.as_bytes().to_vec(), properties }
}

fn cell(v: u32) -> Vec<u8> {
    v.to_be_bytes().to_vec()
}

fn cpu(id: u32, method: &str) -> DtbNode {
    let mut m = method.as_bytes().to_vec();
    m.push(0);
    node(
        &format!("cpu@{}", id),
        vec![
            prop("compatible", b"arm,cortex-a53\0"),
            prop("reg", &cell(id)),
            prop("enable-method", &m),
            prop("cpu-release-addr", &0xd8u64.to_be_bytes()),
        ],
    )
}

#[test]
fn value_readers() {
    assert_eq!(read_cells(&[0, 0, 1, 2], 0, 1), Some(0x102));
    assert_eq!(read_cells(&[0, 0, 0, 1, 0, 0, 0, 2], 0, 2), Some(0x1_0000_0002));
    assert_eq!(read_cells(&[1, 2, 3], 0, 1), None);
    assert_eq!(read_cells(&[1, 2, 3, 4], 0, 0), Some(0));
    assert_eq!(read_cells(&[0; 12], 0, 3), None);
    assert_eq!(read_string(b"memory\0junk"), Some(b"memory".to_vec()));
    assert_eq!(read_string(b"memory"), None);
}

#[test]
fn cpu_config_spin_tables() {
    let nodes = vec![node("", vec![]), node("cpus", vec![]), cpu(0, "spin-table"), cpu(1, "spin-table")];
    let mut config = CpuConfig::new();
    assert!(get_cpu_config(&mut config, &nodes));
    assert_eq!(config.len(), 2);
    assert!(!config.is_empty());
    let cores = config.cores();
    assert_eq!(cores[1].get_id(), 1);
    assert_eq!(cores[1].get_enable_method(), CoreEnableMethod::SpinTable);
    assert_eq!(cores[1].get_cpu_release_addr(), 0xd8);
    assert_eq!(&cores[0].get_cpu_type()[..15], b"arm,cortex-a53\0");
    assert_eq!(cores[0].get_cpu_type().len(), 64);
}

#[test]
fn cpu_config_rejects() {
    // PSCI is known but not supported.
    let mut config = CpuConfig::new();
    assert!(!get_cpu_config(&mut config, &[cpu(0, "psci")]));
    // An unknown enable method.
    let mut config = CpuConfig::new();
    assert!(!get_cpu_config(&mut config, &[cpu(0, "magic")]));
    // No CPU at all.
    let mut config = CpuConfig::new();
    assert!(!get_cpu_config(&mut config, &[node("memory@0", vec![])]));
    // A core id out of range.
    let mut config = CpuConfig::new();
    assert!(!get_cpu_config(&mut config, &[cpu(600, "spin-table")]));
}

#[test]
fn cpu_scanner_errors() {
    let mut scanner = DtbCpuScanner::new(CpuConfig::new());
    assert_eq!(scanner.scan_cpu_node(&[prop("enable-method", b"psci\0")]), Err(DtbError::UnsupportedValue));
    assert_eq!(scanner.scan_cpu_node(&[prop("enable-method", b"other\0")]), Err(DtbError::UnknownValue));
    assert_eq!(scanner.scan_cpu_node(&[prop("enable-method", b"spin-table")]), Err(DtbError::InvalidDtb));
    assert_eq!(scanner.scan_cpu_node(&[prop("cpu-release-addr", &[1, 2])]), Err(DtbError::UnsupportedValue));
    assert_eq!(scanner.scan_cpu_node(&[prop("reg", &cell(3))]), Ok(()));
    assert_eq!(scanner.scan_node(&node("memory@0", vec![])), Ok(true));
    let config = scanner.into_config();
    assert_eq!(config.len(), 1);
}

fn soc_nodes() -> (Vec<DtbProperty>, Vec<DtbProperty>) {
    let root = vec![prop("#address-cells", &cell(1)), prop("#size-cells", &cell(1))];
    let mut ranges = Vec::new();
    for v in [0x7e00_0000u32, 0x3f00_0000, 0x0100_0000, 0x4000_0000, 0x4000_0000, 0x1000] {
        ranges.extend_from_slice(&cell(v));
    }
    let soc = vec![prop("compatible", b"simple-bus\0"), prop("ranges", &ranges)];
    (root, soc)
}

#[test]
fn arm_soc_layout() {
    let (root, soc) = soc_nodes();
    let config = arm_soc::get_soc_memory_layout(&root, Some(&soc)).unwrap();
    let maps = config.get_mappings();
    assert_eq!(maps.len(), 2);
    assert_eq!((maps[0].soc_base, maps[0].cpu_base, maps[0].size), (0x7e00_0000, 0x3f00_0000, 0x0100_0000));
    assert_eq!((maps[1].soc_base, maps[1].cpu_base, maps[1].size), (0x4000_0000, 0x4000_0000, 0x1000));
    assert!(arm_soc::get_soc_memory_layout(&root, None).is_none());
    // Wider SoC addresses than CPU addresses are refused.
    let wide = vec![prop("#address-cells", &cell(2)), prop("ranges", &[0u8; 16])];
    assert!(arm_soc::get_soc_memory_layout(&root, Some(&wide)).is_none());
}

#[test]
fn arm_soc_read_ranges() {
    let mut config = arm_soc::SocConfig::new();
    assert_eq!(arm_soc::read_ranges(&[0u8; 10], 1, 1, 1, &mut config), Err(DtbError::InvalidDtb));
    assert_eq!(arm_soc::read_ranges(&[], 1, 1, 1, &mut config), Err(DtbError::InvalidDtb));
    // A mapping reaching past the address space is skipped.
    let mut v = Vec::new();
    for x in [0u32, 0, 0, 0x1000, 0xffff_ffff, 0xffff_ffff, 0xffff_ffff, 0x1000] {
        v.extend_from_slice(&cell(x));
    }
    assert_eq!(arm_soc::read_ranges(&v, 1, 2, 1, &mut config), Ok(()));
    assert_eq!(config.get_mappings().len(), 1);
}

#[test]
fn peripheral_soc_layout() {
    let (root, soc) = soc_nodes();
    let config = periph_soc::get_soc_memory_layout(&root, Some(&soc)).unwrap();
    assert_eq!(config.get_mappings().len(), 2);
    assert_eq!(config.get_mappings()[0].cpu_base, 0x3f00_0000);
}

#[test]
fn soc_core_count() {
    let nodes = vec![node("", vec![]), node("cpus", vec![]), cpu(0, "psci"), node("cpu@1", vec![]), node("cpu@", vec![])];
    assert_eq!(arm_soc::get_soc_core_count(&nodes), Some(2));
}

#[test]
fn memory_scanner() {
    let mut scanner = DtbMemoryScanner::new();
    let root = vec![prop("#address-cells", &cell(1)), prop("#size-cells", &cell(1))];
    assert_eq!(scanner.scan_node(b"", &root), Ok(true));
    let mut reg = cell(0);
    reg.extend_from_slice(&cell(0x3b40_0000));
    let mem = vec![prop("device_type", b"memory\0"), prop("reg", &reg)];
    assert_eq!(scanner.scan_node(b"memory@0", &mem), Ok(true));
    let other = vec![prop("device_type", b"cpu\0"), prop("reg", &reg)];
    assert_eq!(scanner.scan_node(b"cpu@0", &other), Ok(true));
    let bad = vec![prop("device_type", b"memory\0"), prop("reg", &[0u8; 6])];
    assert_eq!(scanner.scan_node(b"memory@1", &bad), Err(DtbError::InvalidDtb));
    let ranges = scanner.into_ranges();
    assert_eq!(ranges.len(), 1);
    assert_eq!((ranges[0].base, ranges[0].size), (0, 0x3b40_0000));
}

fn memory_tree(sizes: &[u32]) -> Vec<DtbNode> {
    let mut reg = Vec::new();
    for (i, s) in sizes.iter().enumerate() {
        reg.extend(cell(0x1000_0000 * i as u32));
        reg.extend(cell(*s));
    }
    vec![
        node("", vec![prop("#address-cells", &cell(1)), prop("#size-cells", &cell(1))]),
        node("chosen", vec![prop("bootargs", b"console=serial0\0")]),
        node("memory@0", vec![prop("device_type", b"memory\0"), prop("reg", &reg)]),
    ]
}

#[test]
fn memory_layout_from_tree() {
    let layout = get_memory_layout(&memory_tree(&[0x3b40_0000, 0, 0x4000_0000])).unwrap();
    let got: Vec<(usize, usize)> = layout.iter().map(|r| (r.base, r.size)).collect();
    assert_eq!(got, vec![(0, 0x3b40_0000), (0x2000_0000, 0x4000_0000)]);
    // No non-empty memory range.
    assert!(get_memory_layout(&memory_tree(&[0])).is_none());
    // A malformed `reg` value.
    let mut bad = memory_tree(&[0x1000]);
    bad[2].properties[1].value.pop();
    assert!(get_memory_layout(&bad).is_none());
    assert!(get_memory_layout(&[]).is_none());
}

#[test]
fn arm_memory_layout_from_tree() {
    let mut config: Vec<Range> = Vec::new();
    assert!(arm_memory::get_memory_layout(&mut config, &memory_tree(&[0x3b40_0000, 0x100])));
    let got: Vec<(usize, usize)> = config.iter().map(|r| (r.base, r.size)).collect();
    assert_eq!(got, vec![(0, 0x3b40_0000), (0x1000_0000, 0x100)]);
    let mut empty: Vec<Range> = Vec::new();
    assert!(!arm_memory::get_memory_layout(&mut empty, &memory_tree(&[0, 0])));
    assert!(empty.is_empty());
}

#[test]
fn trimming_ranges() {
    let rs = vec![Range { base: 1, size: 0 }, Range { base: 2, size: 3 }, Range { base: 9, size: 0 }];
    let t = trim_ranges(&rs);
    assert_eq!(t.len(), 1);
    assert_eq!((t[0].base, t[0].size), (2, 3));
}

#[test]
fn cpu_config_single_secondary_id() {
    // A lone valid core whose id is not 0 is found: it is stored in the slot
    // of its id, and the configuration counts one core.
    let mut config = CpuConfig::new();
    assert!(get_cpu_config(&mut config, &[cpu(1, "spin-table")]));
    assert_eq!(config.len(), 1);
    let mut config = CpuConfig::new();
    assert!(get_cpu_config(&mut config, &[cpu(1, "spin-table"), cpu(0, "spin-table")]));
    let ids: Vec<usize> = config.cores().iter().map(|c| c.get_id()).collect();
    assert_eq!(ids, vec![0, 1]);
    // Sparse ids: the cores found are the filled slots, in id order.
    let mut config = CpuConfig::new();
    assert!(get_cpu_config(&mut config, &[cpu(0, "spin-table"), cpu(2, "spin-table")]));
    let ids: Vec<usize> = config.cores().iter().map(|c| c.get_id()).collect();
    assert_eq!(ids, vec![0, 2]);
    // Every core found is checked, whatever its slot.
    let mut config = CpuConfig::new();
    assert!(!get_cpu_config(&mut config, &[cpu(0, "spin-table"), cpu(5, "psci")]));
}

#[test]
fn arm_memory_layout_clamps_sizes() {
    let mut reg = Vec::new();
    reg.extend(0xffff_ffff_0000_0000u64.to_be_bytes());
    reg.extend(0x2_0000_0000u64.to_be_bytes());
    reg.extend(0x1000u64.to_be_bytes());
    reg.extend(0x2000u64.to_be_bytes());
    let nodes = vec![
        node("", vec![prop("#address-cells", &cell(2)), prop("#size-cells", &cell(2))]),
        node("memory@0", vec![prop("device_type", b"memory\0"), prop("reg", &reg)]),
    ];
    let mut config: Vec<Range> = Vec::new();
    assert!(arm_memory::get_memory_layout(&mut config, &nodes));
    let got: Vec<(usize, usize)> = config.iter().map(|r| (r.base, r.size)).collect();
    assert_eq!(got, vec![(0xffff_ffff_0000_0000, 0xffff_ffff), (0x1000, 0x2000)]);
    // The peripheral scanner keeps the size as given.
    let layout = get_memory_layout(&nodes).unwrap();
    assert_eq!((layout[0].base, layout[0].size), (0xffff_ffff_0000_0000, 0x2_0000_0000));
}
