use qmassa::amdgpu::{amdgpu_dev_type, power_sensor, render_node, sclk_freq_limits, sclk_freqs};
use qmassa::clients::{DrmClients, ProcScan};
use qmassa::devices::{DeviceError, DeviceNodeInfo, DrmDeviceFan, DrmDeviceFreqLimits, DrmDeviceFreqs, DrmDeviceMemInfo, DrmDeviceType, VirtFn};
use qmassa::drivers::SysfsError;
use qmassa::drmdevices::{driver_from, DeviceSample, DrmDevices, DrmDriverKind};
use qmassa::drvdata::{
    find_card_dir, freq_limits_from, i915_dev_type, i915_mem_info, i915_pmu_source, nr_engine_classes,
    parse_pmu_opts, sriov_fn_from, virt_fn_from, xe_dev_type, xe_engines_from, xe_mem_info,
    DrmDriverXeVfio, EnginePmuData, EnginesPmu, FreqLimitTexts, I915MemRegion, MemRegionUsage, SriovError, XeEngine,
};
use qmassa::hwmon::{Hwmon, HwmonEntry};
use qmassa::power::{
    find_power_method, rapl_energy_unit_shift, DGpuPowerIntel, IGpuPowerIntel, IGpuTempIntel,
    Msr, MsrSum, PowerMethod,
};
use qmassa::qmdrmdrivers::{xe_device_freqs, xe_device_mem_info, xe_device_type};
use qmassa::qmdrmdevices::QmDrmDeviceType;

fn drm_rdev(minor: u64) -> u64 {
    (226u64 << 8) | (minor & 0xff) | ((minor & !0xff) << 12)
}

fn entry(name: &str, label: Option<&str>) -> HwmonEntry {
    HwmonEntry { name: String::from(name), is_symlink: false, is_dir: false, is_file: true, label_text: label.map(String::from) }
}

fn hwmon_of(entries: Vec<HwmonEntry>) -> Hwmon {
    Hwmon::from(Some(String::from("/sys/class/drm/card0/device/hwmon/hwmon2")), true, &entries).unwrap().unwrap()
}

#[test]
fn power_method_prefers_power_sensors() {
    let h = hwmon_of(vec![
        entry("power1_input", None),
        entry("power2_average", None),
        entry("power2_label", Some("card")),
        entry("energy1_input", None),
    ]);
    let (m, ss) = find_power_method(&h).unwrap();
    assert_eq!(m, PowerMethod::Power);
    assert_eq!(ss.gpu_sensor, "power1");
    assert_eq!(ss.gpu_item, "input");
    assert_eq!(ss.pkg_sensor, "power2");
    assert_eq!(ss.pkg_item, "average");
}

#[test]
fn power_method_falls_back_to_energy() {
    let h = hwmon_of(vec![
        entry("power1_max", None),
        entry("energy1_input", None),
        entry("energy1_label", Some("pkg")),
        entry("energy2_input", None),
        entry("energy2_label", Some("card")),
    ]);
    let (m, ss) = find_power_method(&h).unwrap();
    assert_eq!(m, PowerMethod::Energy);
    assert_eq!(ss.gpu_sensor, "energy1");
    assert_eq!(ss.gpu_item, "input");
    assert_eq!(ss.pkg_sensor, "energy2");
    assert_eq!(ss.pkg_item, "input");
    let p = DGpuPowerIntel::from(&h).unwrap();
    assert_eq!(p.name(), "dGPU:hwmon");
    assert_eq!(p.method, PowerMethod::Energy);
}

#[test]
fn power_method_none_without_sensors() {
    let h = hwmon_of(vec![entry("temp1_input", None), entry("power1_label", Some("other"))]);
    assert!(find_power_method(&h).is_none());
    assert!(DGpuPowerIntel::from(&h).is_none());
}

#[test]
fn dgpu_energy_deltas() {
    let h = hwmon_of(vec![entry("energy1_input", None)]);
    let mut p = DGpuPowerIntel::from(&h).unwrap();
    assert_eq!(p.energy_deltas(1000, 0), Ok((0, 0)));
    assert_eq!(p.energy_deltas(1600, 0), Ok((600, 0)));
    // a counter read as 0 keeps its delta
    assert_eq!(p.energy_deltas(0, 0), Ok((600, 0)));
    assert_eq!(p.last_gpu_val, 0);
    assert_eq!(p.energy_deltas(500, 0), Ok((500, 0)));
    assert_eq!(p.energy_deltas(400, 0), Err(SysfsError::BadCounter));
    assert_eq!(p.last_gpu_val, 400);
    assert_eq!(p.delta_gpu_val, 500);
}

#[test]
fn igpu_energy_deltas() {
    let mut p = IGpuPowerIntel::new(true);
    assert_eq!(p.name(), "iGPU:perf");
    assert_eq!(IGpuPowerIntel::new(false).name(), "iGPU:MSR");
    assert_eq!(p.energy_deltas(100, 200), Ok((0, 0)));
    assert_eq!(p.energy_deltas(150, 260), Ok((50, 60)));
    assert_eq!(p.energy_deltas(140, 300), Err(SysfsError::BadCounter));
    assert_eq!(p.nr_updates, 3);
}

#[test]
fn msr_sum_accumulates_low_bits() {
    let mut s = MsrSum { sum: 0, last: 0 };
    assert_eq!(s.add_reading(0x1_0000_0010), 0x10);
    assert_eq!(s.last, 0x10);
    assert_eq!(s.add_reading(0x30), 0x30);
    // the 32-bit counter wrapped: the difference is taken modulo 2^64
    assert_eq!(s.add_reading(0x8), 0x8);
}

#[test]
fn msr_read_sum_per_register() {
    let mut m = Msr::new();
    assert_eq!(m.read_sum(0x611, 100), 100);
    assert_eq!(m.read_sum(0x641, 7), 7);
    assert_eq!(m.read_sum(0x611, 150), 150);
    assert_eq!(m.read_sum(0x641, 10), 10);
    assert_eq!(m.sums.len(), 2);
}

#[test]
fn igpu_temperature() {
    assert_eq!(IGpuTempIntel::read_tjmax(None), 100);
    assert_eq!(IGpuTempIntel::read_tjmax(Some(0x0069_0000)), 105);
    assert_eq!(IGpuTempIntel::read_tjmax(Some(0xff00_ffff)), 100);
    let t = IGpuTempIntel::new(Some(0x0064_0000));
    assert_eq!(t.tjmax, 100);
    assert_eq!(t.pkg_temp_c(0x0019_0000), 75);
    assert_eq!(t.pkg_temp_c(0x00ff_0000), 0);
    // bit 23 is not part of the readout
    assert_eq!(t.pkg_temp_c(0x0080_0000), 100);
    assert_eq!(t.pkg_temp_c(0x0099_0000), 75);
}

#[test]
fn rapl_unit_shift() {
    assert_eq!(rapl_energy_unit_shift(0x000a0e03), 14);
    assert_eq!(rapl_energy_unit_shift(0xffff_ffff), 31);
}

#[test]
fn xe_memory_from_regions() {
    let regs = vec![
        MemRegionUsage { mem_class: 0, total: 1000, used: 100 },
        MemRegionUsage { mem_class: 1, total: 8000, used: 800 },
        MemRegionUsage { mem_class: 1, total: 2000, used: 200 },
        MemRegionUsage { mem_class: 7, total: 5, used: 5 },
    ];
    let mi = xe_mem_info(&regs).unwrap();
    assert_eq!(mi, DrmDeviceMemInfo { smem_total: 1000, smem_used: 100, vram_total: 10000, vram_used: 1000 });
    let big = vec![
        MemRegionUsage { mem_class: 0, total: u64::MAX, used: 0 },
        MemRegionUsage { mem_class: 0, total: 1, used: 0 },
    ];
    assert!(xe_mem_info(&big).is_none());
    assert_eq!(xe_mem_info(&vec![]).unwrap(), DrmDeviceMemInfo::new());
}

#[test]
fn i915_memory_and_type() {
    let regs = vec![
        I915MemRegion { memory_class: 0, probed_size: 4096, unallocated_size: 1024 },
        I915MemRegion { memory_class: 1, probed_size: 8192, unallocated_size: 8000 },
        I915MemRegion { memory_class: 3, probed_size: 1, unallocated_size: 9 },
    ];
    let mi = i915_mem_info(&regs).unwrap();
    assert_eq!(mi, DrmDeviceMemInfo { smem_total: 4096, smem_used: 3072, vram_total: 8192, vram_used: 192 });
    assert_eq!(i915_dev_type(&mi), DrmDeviceType::Discrete(VirtFn::NoVirt));
    let bad = vec![I915MemRegion { memory_class: 0, probed_size: 1, unallocated_size: 2 }];
    assert!(i915_mem_info(&bad).is_none());
    assert_eq!(i915_dev_type(&DrmDeviceMemInfo::new()), DrmDeviceType::Integrated(VirtFn::NoVirt));
}

#[test]
fn xe_device_type_and_virtualization() {
    assert_eq!(virt_fn_from(true, true, true), VirtFn::VFIO);
    assert_eq!(virt_fn_from(false, true, true), VirtFn::SriovVF);
    assert_eq!(virt_fn_from(false, false, true), VirtFn::SriovPF);
    assert_eq!(virt_fn_from(false, false, false), VirtFn::NoVirt);
    assert_eq!(xe_dev_type(VirtFn::SriovPF, &vec![]), DrmDeviceType::Unknown);
    assert_eq!(xe_dev_type(VirtFn::SriovPF, &vec![4, 0x3]), DrmDeviceType::Discrete(VirtFn::SriovPF));
    assert_eq!(xe_dev_type(VirtFn::NoVirt, &vec![4, 0x2, 9]), DrmDeviceType::Integrated(VirtFn::NoVirt));
    assert_eq!(xe_device_type(&vec![4, 1]), QmDrmDeviceType::Discrete);
    assert_eq!(xe_device_type(&vec![4, 0]), QmDrmDeviceType::Integrated);
}

#[test]
fn engines_and_classes() {
    assert_eq!(nr_engine_classes(&vec![]), 0);
    assert_eq!(nr_engine_classes(&vec![0, 4, 2]), 5);
    let (n, engs) = xe_engines_from(&vec![(0, 0, 0), (2, 1, 1), (1, 0, 0)]);
    assert_eq!(n, 3);
    assert_eq!(engs[1], XeEngine { gt_id: 1, class: 2, instance: 1 });
    assert_eq!(engs.len(), 3);
}

#[test]
fn engines_pmu_layout() {
    let pmu = EnginesPmu::from(3, &vec![0, 2, 0, 1], true);
    assert_eq!(pmu.nr_evts, 8);
    assert_eq!(pmu.engs_data.len(), 3);
    let idx0: Vec<usize> = pmu.engs_data[0].iter().map(|e| e.base_idx).collect();
    assert_eq!(idx0, vec![0, 4]);
    assert_eq!(pmu.engs_data[1][0].base_idx, 6);
    assert_eq!(pmu.engs_data[2][0].base_idx, 2);
    let one = EnginesPmu::from(2, &vec![1, 1], false);
    assert_eq!(one.nr_evts, 2);
    assert_eq!(one.engs_data[1].iter().map(|e| e.base_idx).collect::<Vec<_>>(), vec![0, 1]);
    assert!(one.engs_data[0].is_empty());
}

#[test]
fn engines_pmu_counters_two() {
    let mut pmu = EnginesPmu::from(2, &vec![0, 1, 0], true);
    // header, then (active, total) per engine in opening order
    assert_eq!(pmu.engs_counters(&vec![3, 10, 100, 5, 100, 20, 100], 0), Ok(vec![(0, 0), (0, 0)]));
    let r = pmu.engs_counters(&vec![3, 40, 200, 5, 200, 50, 200], 0).unwrap();
    assert_eq!(r, vec![(60, 200), (0, 100)]);
    assert_eq!(pmu.engs_data[0][1], EnginePmuData { base_idx: 4, last_active: 50, last_total: 200 });
    // a short read changes nothing
    assert_eq!(pmu.engs_counters(&vec![3, 1], 0), Err(SysfsError::BadCounter));
    assert_eq!(pmu.nr_updates, 2);
    // a counter going back
    assert_eq!(pmu.engs_counters(&vec![3, 30, 300, 6, 300, 60, 300], 0), Err(SysfsError::BadCounter));
    assert_eq!(pmu.engs_data[0][0].last_active, 30);
}

#[test]
fn engines_pmu_counters_elapsed() {
    let mut pmu = EnginesPmu::from(1, &vec![0, 0], false);
    assert_eq!(pmu.engs_counters(&vec![2, 1000, 2000], 7), Ok(vec![(0, 0)]));
    assert_eq!(pmu.engs_counters(&vec![2, 1500, 2100], 1000), Ok(vec![(600, 2000)]));
}

#[test]
fn pmu_options_per_device() {
    let opts = vec!["engines=pmu", "devslot=0000:03:00.0,freqs=pmu", "devslot=0000:04:00.0,power=msr"];
    assert_eq!(parse_pmu_opts("0000:03:00.0", &opts), (true, true));
    assert_eq!(parse_pmu_opts("0000:04:00.0", &opts), (true, false));
    assert_eq!(parse_pmu_opts("x", &vec![]), (false, false));
}

#[test]
fn sriov_function_numbers() {
    let vfs = vec![String::from("0000:03:00.1"), String::from("0000:03:00.2")];
    assert_eq!(sriov_fn_from("0000:03:00.0", false, &vfs), Ok(0));
    assert_eq!(sriov_fn_from("0000:03:00.2", true, &vfs), Ok(2));
    assert_eq!(sriov_fn_from("0000:03:00.5", true, &vfs), Err(SriovError::NotAVirtFn));
}

#[test]
fn freq_limits_of_gts() {
    let ts = vec![
        FreqLimitTexts { minimum: String::from("300\n"), efficient: String::from("900\n"), maximum: String::from("2400\n") },
        FreqLimitTexts { minimum: String::from("100"), efficient: String::from("200"), maximum: String::from("1100") },
    ];
    let fls = freq_limits_from(&ts).unwrap();
    assert_eq!(fls.len(), 2);
    assert_eq!(fls[0].name, "gt0");
    assert_eq!((fls[0].minimum, fls[0].efficient, fls[0].maximum), (300, 900, 2400));
    assert_eq!(fls[1].name, "gt1");
    assert_eq!(fls[1].maximum, 1100);
    let bad = vec![FreqLimitTexts { minimum: String::from("x"), efficient: String::from("1"), maximum: String::from("2") }];
    assert_eq!(freq_limits_from(&bad).unwrap_err(), SysfsError::InvalidNumber);
}

#[test]
fn i915_pmu_source_names() {
    assert_eq!(i915_pmu_source("0000:03:00.0", &DrmDeviceType::Discrete(VirtFn::NoVirt)), "i915_0000_03_00.0");
    assert_eq!(i915_pmu_source("0000:00:02.0", &DrmDeviceType::Integrated(VirtFn::NoVirt)), "i915");
}

#[test]
fn amdgpu_type_sensor_and_node() {
    assert_eq!(amdgpu_dev_type(1), DrmDeviceType::Integrated(VirtFn::NoVirt));
    assert_eq!(amdgpu_dev_type(2), DrmDeviceType::Discrete(VirtFn::NoVirt));
    let h = hwmon_of(vec![entry("power1_average", None), entry("power2_cap", None), entry("power3_average", None)]);
    assert_eq!(power_sensor(&h), "power3");
    let h2 = hwmon_of(vec![entry("power1_input", None)]);
    assert_eq!(power_sensor(&h2), "");
    let nodes = vec![
        DeviceNodeInfo { devnode: String::from("/dev/dri/card1"), major: 226, minor: 1 },
        DeviceNodeInfo { devnode: String::from("/dev/dri/renderD129"), major: 226, minor: 129 },
    ];
    assert_eq!(render_node(&nodes), 1);
    assert_eq!(render_node(&nodes[..1].iter().map(|n| DeviceNodeInfo { devnode: n.devnode.clone(), major: n.major, minor: n.minor }).collect()), 1);
}

const SCLK: &str = "0: 500Mhz\n1: 800Mhz *\n2: 2400Mhz\n";

#[test]
fn amdgpu_sclk_current_and_limits() {
    let f = sclk_freqs(SCLK).unwrap();
    assert_eq!(f.act_freq, 800);
    assert_eq!((f.min_freq, f.cur_freq, f.max_freq), (0, 0, 0));
    let fl = sclk_freq_limits(SCLK).unwrap();
    assert_eq!(fl.minimum, 0);
    assert_eq!(fl.maximum, 3600);
    assert_eq!(fl.name, "");
    assert_eq!(sclk_freqs("0: 500Mhz\n").unwrap().act_freq, 0);
    assert_eq!(sclk_freqs("x Mhz *\n").unwrap_err(), SysfsError::Malformed);
    assert_eq!(sclk_freqs("0: fastMhz *\n").unwrap_err(), SysfsError::InvalidNumber);
    // level 2 marked current
    assert_eq!(sclk_freq_limits("0: 300Mhz\n2: 1000Mhz *\n").unwrap().maximum, 1500);
    // a higher level stops the reading and zeroes the limits
    assert_eq!(sclk_freq_limits("2: 1000Mhz\n3: 1200Mhz\n").unwrap().maximum, 0);
    // a line without a value stops the reading with what was read
    assert_eq!(sclk_freq_limits("2: 1000Mhz\nbogus\n2: 9Mhz\n").unwrap().maximum, 1500);
    assert_eq!(sclk_freq_limits("x: 1Mhz\n").unwrap_err(), SysfsError::InvalidNumber);
}

#[test]
fn drivers_by_name() {
    assert_eq!(driver_from("xe"), Some(DrmDriverKind::Xe));
    assert_eq!(driver_from("i915"), Some(DrmDriverKind::I915));
    assert_eq!(driver_from("amdgpu"), Some(DrmDriverKind::Amdgpu));
    assert_eq!(driver_from("nouveau"), None);
    assert_eq!(DrmDriverKind::Amdgpu.name(), "amdgpu");
}

#[test]
fn devices_from_nodes() {
    let mut devs = DrmDevices::new();
    let slots: Vec<&str> = vec![];
    assert_eq!(
        devs.add_device_node(&slots, String::from("0000:03:00.0"), Some("8086:56A0"), String::from("Intel"), String::from("Arc"), "0x08", String::from("xe"), String::from("/dev/dri/card1"), drm_rdev(1)),
        Ok(true)
    );
    assert_eq!(
        devs.add_device_node(&slots, String::from("0000:03:00.0"), Some("8086:56A0"), String::from("Intel"), String::from("Arc"), "0x08", String::from("xe"), String::from("/dev/dri/renderD129"), drm_rdev(129)),
        Ok(true)
    );
    assert_eq!(
        devs.add_device_node(&slots, String::from("platform"), None, String::new(), String::new(), "", String::from("vgem"), String::from("/dev/dri/card0"), drm_rdev(0)),
        Ok(true)
    );
    assert_eq!(
        devs.add_device_node(&slots, String::from("0000:04:00.0"), Some("1002:744C"), String::new(), String::new(), "0xc8", String::from("amdgpu"), String::from("/dev/sda"), 8 << 8),
        Err(DeviceError::NotDrmMajor)
    );
    assert_eq!(devs.devices(), vec![String::from("0000:03:00.0"), String::from("platform")]);
    let d = devs.device_info(&String::from("0000:03:00.0")).unwrap();
    assert_eq!(d.vendor_id, "8086");
    assert_eq!(d.device_id, "56A0");
    assert_eq!(d.revision, "08");
    assert_eq!(d.dev_nodes.len(), 2);
    assert_eq!(d.dev_nodes[1].minor, 129);
    assert!(!d.has_driver());
    let p = devs.device_info(&String::from("platform")).unwrap();
    assert_eq!(p.vendor_id, "");
    let only: Vec<&str> = vec!["0000:09:00.0"];
    assert_eq!(
        devs.add_device_node(&only, String::from("0000:03:00.0"), Some("8086:56A0"), String::new(), String::new(), "", String::from("xe"), String::from("/dev/dri/card1"), drm_rdev(1)),
        Ok(false)
    );
}

#[test]
fn devices_driver_and_refresh() {
    let mut devs = DrmDevices::new();
    let slots: Vec<&str> = vec![];
    devs.add_device_node(&slots, String::from("0000:03:00.0"), Some("8086:56A0"), String::new(), String::new(), "08", String::from("xe"), String::from("/dev/dri/card1"), drm_rdev(1)).unwrap();
    devs.add_device_node(&slots, String::from("0000:00:02.0"), Some("8086:A7A0"), String::new(), String::new(), "04", String::from("other"), String::from("/dev/dri/card0"), drm_rdev(0)).unwrap();
    let mut fl = DrmDeviceFreqLimits::new();
    fl.name = String::from("gt0");
    assert!(devs.set_device_driver(&String::from("0000:03:00.0"), DrmDriverKind::Xe, DrmDeviceType::Discrete(VirtFn::NoVirt), vec![fl]));
    assert!(!devs.set_device_driver(&String::from("0000:09:00.0"), DrmDriverKind::Xe, DrmDeviceType::Unknown, vec![]));
    let mut f = DrmDeviceFreqs::new();
    f.act_freq = 1500;
    let mi = DrmDeviceMemInfo { smem_total: 1, smem_used: 2, vram_total: 3, vram_used: 4 };
    let samples = vec![
        DeviceSample { freqs: vec![f], mem_info: mi, fans: vec![DrmDeviceFan { name: String::from("1"), speed: 900 }] },
        DeviceSample { freqs: vec![f], mem_info: mi, fans: vec![] },
    ];
    devs.set_clients_pid_tree("", false).unwrap();
    devs.refresh(samples, Vec::<ProcScan>::new());
    let d = devs.device_info(&String::from("0000:03:00.0")).unwrap();
    assert!(d.has_driver());
    assert_eq!(d.freqs[0].act_freq, 1500);
    assert_eq!(d.mem_info, mi);
    assert_eq!(d.fans.len(), 1);
    assert_eq!(d.freq_limits[0].name, "gt0");
    let o = devs.device_info(&String::from("0000:00:02.0")).unwrap();
    assert_eq!(o.freqs[0].act_freq, 0);
    assert_eq!(o.mem_info, DrmDeviceMemInfo::new());
    assert!(devs.qmclis.is_some());
    assert!(devs.set_clients_pid_tree("abc", false).is_err());
    let c: &DrmClients = devs.qmclis.as_ref().unwrap();
    assert_eq!(c.infos.len(), 0);
}

#[test]
fn legacy_xe_memory_and_freqs() {
    let regs = vec![MemRegionUsage { mem_class: 0, total: 10, used: 5 }, MemRegionUsage { mem_class: 1, total: 20, used: 1 }];
    let mi = xe_device_mem_info(&regs).unwrap();
    assert_eq!((mi.smem_total, mi.smem_used, mi.vram_total, mi.vram_used), (10, 5, 20, 1));
    let f = xe_device_freqs("100\n", "200\n", "150\n", "1000\n").unwrap();
    assert_eq!((f.min_freq, f.cur_freq, f.act_freq, f.max_freq), (100, 200, 150, 1000));
    assert_eq!(xe_device_freqs("100", "n/a", "1", "2").unwrap_err(), SysfsError::InvalidNumber);
}

#[test]
fn vfio_card_dir_is_first_card_directory() {
    let entries = vec![
        Some((String::from("cardx.lnk"), false)),
        Some((String::from("renderD128"), true)),
        Some((String::from("card1"), true)),
        Some((String::from("card2"), true)),
    ];
    assert_eq!(find_card_dir(&entries), Some(String::from("card1")));
    let failed = vec![Some((String::from("renderD128"), true)), None, Some((String::from("card0"), true))];
    assert_eq!(find_card_dir(&failed), None);
    assert_eq!(find_card_dir(&vec![]), None);
}

#[test]
fn vfio_driver_without_engine_counters_reports_nothing() {
    let mut drv = DrmDriverXeVfio::new(DrmDeviceType::Discrete(VirtFn::VFIO), None);
    assert_eq!(drv.name(), "xe-vfio-pci");
    assert_eq!(drv.dev_type(), DrmDeviceType::Discrete(VirtFn::VFIO));
    assert_eq!(drv.engs_counters(&vec![1, 2, 3], 10), Ok(vec![]));
    let pmu = EnginesPmu::from(1, &vec![0], true);
    let mut with = DrmDriverXeVfio::new(DrmDeviceType::Integrated(VirtFn::VFIO), Some(pmu));
    assert_eq!(with.engs_counters(&vec![0], 10), Err(SysfsError::BadCounter));
    assert_eq!(with.engs_counters(&vec![1, 5, 10], 10), Ok(vec![(0, 0)]));
    assert_eq!(with.engs_counters(&vec![1, 8, 20], 10), Ok(vec![(3, 10)]));
}
