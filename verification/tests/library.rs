use qmassa::appdata::{
    acum_allowed, acum_client_ids, acum_mem_info, card_from, client_key_pos, dev_nodes_text, device_label,
    find_single_client, limited_vec_push, pid_members, pids_in_order,
};
use qmassa::clients::{
    client_mem_info, mem_class, ClientMemDriver, DrmClientInfo, DrmClientMemInfo, DrmClients,
    DrmEngineDelta, DrmEnginesAcum, EngUtilization, MemClass, ProcScan,
};
use qmassa::devices::{
    pci_ids, revision_of, slot_selected, sort_fans, DeviceError, DeviceNodeInfo, DrmDeviceFan,
    DrmDeviceFreqLimits, DrmDeviceFreqs, DrmDeviceMemInfo, DrmDeviceTemperature,
    DrmDeviceThrottleReasons, DrmDeviceType, SensorReading, VirtFn,
};
use qmassa::drivers::{gt_freqs, sysfs_flag, sysfs_u64, xe_pmu_source_from, GtFreqTexts, GtFreqsPmuData, SysfsError, XeFreqsPmu};
use qmassa::fdinfo::{engine_value, mem_value, mul_from_unit, DrmEngine, DrmFdinfo, DrmMemRegion, EngKvType, FdinfoError};
use qmassa::hwmon::{Hwmon, HwmonEntry, HwmonError, Sensor};
use qmassa::intel::IntelDriverOpts;
use qmassa::procinfo::{parse_stat, FdEntry, ProcError, ProcInfo};
use qmassa::qmappdata::QmAppDataDeviceStats;
use qmassa::qmdevice::{find_driver, QmDevice, QmDriver, QmDriverKind, XeDriver};
use qmassa::qmdrmclients::{QmDrmClientInfo, QmDrmClients, QmDrmEngineDelta, QmDrmEnginesAcum, QmDrmClientMemInfo, QmProcScan};
use qmassa::qmdrmdevices::{QmDrmDeviceFreqs, QmDrmDeviceInfo, QmDrmDeviceMemInfo, QmDrmDeviceType, QmDrmDevices, QmDrmMinorInfo};
use qmassa::qmdrmdrivers::{driver_from, QmDrmDriver, QmDrmDriverKind};
use qmassa::qmdrmfdinfo::{QmDrmEngine, QmDrmFdinfo, QmDrmMemRegion};
use qmassa::qmhwmon::{QmHwMon, QmHwMonError, QmHwMonFile};
use qmassa::qmprocinfo::QmProcInfo;
use qmassa::ui::{ClientStatsState, DeviceStatsState, DevicesTabState, DrmClientSelected};
use qmassa::view::{decimal_string, dev_nodes_label, device_nr_charts, pci_id_label, mem_pair_label, select_charts, short_mem_string, stats_fit_one_row, ChartError};
use std::collections::VecDeque;

// Device number of /dev/dri/card<m> and /dev/dri/renderD<m> (major 226).
fn drm_rdev(minor: u64) -> u64 {
    (226u64 << 8) | (minor & 0xff) | ((minor & !0xff) << 12)
}

const CHR_MODE: u32 = 0o020666;

const FDINFO_XE: &str = "pos:\t0\nflags:\t02100002\nmnt_id:\t27\nino:\t1088\ndrm-driver:\txe\ndrm-client-id:\t42\ndrm-pdev:\t0000:03:00.0\ndrm-total-system:\t4 KiB\ndrm-resident-system:\t2 KiB\ndrm-total-vram0:\t8 MiB\ndrm-resident-vram0:\t8 MiB\ndrm-total-stolen:\t0\ndrm-cycles-rcs:\t1000\ndrm-total-cycles-rcs:\t5000\ndrm-engine-capacity-rcs:\t1\ndrm-cycles-ccs:\t0\ndrm-total-cycles-ccs:\t5000\ndrm-engine-capacity-ccs:\t4\n";

fn fdinfo_text(client: u32, rcs_cycles: u64, total: u64) -> String {
    format!(
        "drm-driver:\txe\ndrm-client-id:\t{}\ndrm-pdev:\t0000:03:00.0\ndrm-total-system:\t4 KiB\ndrm-resident-system:\t2 KiB\ndrm-cycles-rcs:\t{}\ndrm-total-cycles-rcs:\t{}\ndrm-engine-capacity-rcs:\t1\n",
        client, rcs_cycles, total
    )
}

fn sample(client: u32, rcs_cycles: u64, total: u64, t: u64) -> DrmFdinfo {
    DrmFdinfo::from(&fdinfo_text(client, rcs_cycles, total), String::from("/proc/1/fdinfo/5"), 128, t).unwrap()
}

const STAT: &str = "1234 (my (weird) proc) S 1 1234 1234 0 -1 4194560 100 0 0 0 250 50 0 0 20 0 7 0 1000 1000000 100 18446744073709551615 1 1 0 0 0 0 0 0 0 0 0 0 17 3 0 0 0 0 0";

fn proc_info(pid: &str, cputime_stat: &str, now: u64) -> ProcInfo {
    ProcInfo::from(pid, "glxgears\n", "glxgears\0-fullscreen\0", cputime_stat, now).unwrap()
}

// ---------------------------------------------------------------------------
// fdinfo
// ---------------------------------------------------------------------------

#[test]
fn fdinfo_parses_engines_regions_and_ids() {
    let f = DrmFdinfo::from(FDINFO_XE, String::from("/proc/7/fdinfo/3"), 0, 99).unwrap();
    assert_eq!(f.pci_dev, "0000:03:00.0");
    assert_eq!(f.client_id, 42);
    assert_eq!(f.drm_minor, 0);
    assert_eq!(f.time_sampled, 99);
    assert_eq!(f.path, "/proc/7/fdinfo/3");
    let names: Vec<&str> = f.engines.iter().map(|e| e.name.as_str()).collect();
    assert_eq!(names, vec!["rcs", "ccs"]);
    assert_eq!(f.engines[0].cycles, 1000);
    assert_eq!(f.engines[0].total_cycles, 5000);
    assert_eq!(f.engines[0].capacity, 1);
    assert_eq!(f.engines[1].capacity, 4);
    let regs: Vec<&str> = f.mem_regions.iter().map(|r| r.name.as_str()).collect();
    assert_eq!(regs, vec!["system", "vram0", "stolen"]);
    assert_eq!(f.mem_regions[0].total, 4096);
    assert_eq!(f.mem_regions[0].resident, 2048);
    assert_eq!(f.mem_regions[1].total, 8 * 1024 * 1024);
    assert_eq!(f.mem_regions[2].total, 0);
}

#[test]
fn fdinfo_engine_time_ignores_unit() {
    let f = DrmFdinfo::from("drm-engine-render:\t123456 ns\n", String::new(), 1, 0).unwrap();
    assert_eq!(f.engines.len(), 1);
    assert_eq!(f.engines[0].name, "render");
    assert_eq!(f.engines[0].time, 123456);
    assert_eq!(f.engines[0].capacity, 1);
}

#[test]
fn fdinfo_repeated_name_updates_same_engine() {
    let f = DrmFdinfo::from("drm-engine-gfx:\t10 ns\ndrm-engine-gfx:\t20 ns\n", String::new(), 1, 0).unwrap();
    assert_eq!(f.engines.len(), 1);
    assert_eq!(f.engines[0].time, 20);
}

#[test]
fn fdinfo_errors() {
    assert_eq!(DrmFdinfo::from("drm-client-id 3\n", String::new(), 0, 0).unwrap_err(), FdinfoError::MissingSeparator);
    assert_eq!(DrmFdinfo::from("drm-engine-rcs:\t\n", String::new(), 0, 0).unwrap_err(), FdinfoError::MissingValue);
    assert_eq!(DrmFdinfo::from("drm-client-id:\tabc\n", String::new(), 0, 0).unwrap_err(), FdinfoError::InvalidNumber);
    assert_eq!(
        DrmFdinfo::from("drm-total-vram:\t18446744073709551615 KiB\n", String::new(), 0, 0).unwrap_err(),
        FdinfoError::ValueOverflow
    );
}

#[test]
fn fdinfo_values_and_units() {
    assert_eq!(mul_from_unit("KiB"), 1024);
    assert_eq!(mul_from_unit("MiB"), 1024 * 1024);
    assert_eq!(mul_from_unit("GiB"), 1024 * 1024 * 1024);
    assert_eq!(mul_from_unit("B"), 1);
    assert_eq!(mem_value("3 MiB"), Ok(3 * 1024 * 1024));
    assert_eq!(mem_value("17"), Ok(17));
    assert_eq!(engine_value(EngKvType::KvTime, "5 ns"), Ok(5));
    assert_eq!(engine_value(EngKvType::KvCapacity, "4294967296"), Err(FdinfoError::InvalidNumber));
    let e = DrmEngine::new("vcs");
    assert_eq!((e.name.as_str(), e.capacity, e.time), ("vcs", 1, 0));
    let r = DrmMemRegion::new("vram0");
    assert_eq!((r.name.as_str(), r.total, r.resident), ("vram0", 0, 0));
}

#[test]
fn is_drm_fd_checks_char_device_and_major() {
    let mut mn: u32 = 7;
    assert!(DrmFdinfo::is_drm_fd(CHR_MODE, drm_rdev(128), &mut mn));
    assert_eq!(mn, 128);
    let mut mn2: u32 = 7;
    assert!(!DrmFdinfo::is_drm_fd(0o100644, drm_rdev(128), &mut mn2));
    assert_eq!(mn2, 7);
    assert!(!DrmFdinfo::is_drm_fd(CHR_MODE, (1u64 << 8) | 3, &mut mn2));
    assert_eq!(mn2, 7);
}

// ---------------------------------------------------------------------------
// processes
// ---------------------------------------------------------------------------

#[test]
fn stat_parsing_after_last_paren() {
    let st = parse_stat(STAT).unwrap();
    assert_eq!(st.cputime, 300);
    assert_eq!(st.nr_threads, 7);
    assert_eq!(parse_stat("1 bash S 1"), Err(ProcError::MissingCommEnd));
    assert_eq!(parse_stat("1 (bash) S 1 2 3"), Err(ProcError::TooFewFields));
    assert_eq!(
        parse_stat("1 (x) S 1 1 1 0 -1 0 0 0 0 0 zz 50 0 0 20 0 7"),
        Err(ProcError::InvalidNumber)
    );
    assert_eq!(
        parse_stat("1 (x) S 1 1 1 0 -1 0 0 0 0 0 18446744073709551615 1 0 0 20 0 7"),
        Err(ProcError::CpuTimeOverflow)
    );
}

#[test]
fn proc_info_from_texts() {
    let p = proc_info("1234", STAT, 1000);
    assert_eq!(p.pid, 1234);
    assert_eq!(p.comm, "glxgears");
    assert_eq!(p.cmdline, "glxgears -fullscreen ");
    assert_eq!(p.proc_dir, "/proc/1234");
    assert_eq!(p.cputime_last, 300);
    assert_eq!(p.cputime_delta, 300);
    assert_eq!(p.nr_updates, 1);
    assert_eq!(p.ms_elapsed, 0);
    assert!(matches!(ProcInfo::from("12a", "", "", STAT, 0), Err(ProcError::InvalidPid)));
}

#[test]
fn proc_info_update_takes_deltas() {
    let mut p = proc_info("1234", STAT, 1000);
    let later = STAT.replace(" 250 50 ", " 400 100 ");
    assert_eq!(p.update(&later, 1500), Ok(()));
    assert_eq!(p.cputime_last, 500);
    assert_eq!(p.cputime_delta, 200);
    assert_eq!(p.ms_elapsed, 500);
    assert_eq!(p.nr_updates, 2);
    // a CPU time going back is refused and changes nothing
    assert_eq!(p.update(STAT, 2000), Err(ProcError::CpuTimeBackwards));
    assert_eq!(p.cputime_last, 500);
    assert_eq!(p.last_update, 1500);
}

#[test]
fn pid_validity_and_children() {
    assert!(ProcInfo::is_valid_pid("42", true));
    assert!(!ProcInfo::is_valid_pid("42", false));
    assert!(!ProcInfo::is_valid_pid("self", true));
    let p = proc_info("1", STAT, 0);
    let kids = p.children_pids(&vec![String::from("10 11 "), String::new(), String::from("\n12\n")]);
    assert_eq!(kids, vec!["10", "11", "12"]);
}

#[test]
fn drm_fdinfos_keeps_parsed_drm_files_with_pci_dev() {
    let p = proc_info("1", STAT, 0);
    let fds = vec![
        FdEntry { st_mode: CHR_MODE, st_rdev: drm_rdev(128), fdinfo_path: String::from("/proc/1/fdinfo/3"), fdinfo: Some(String::from(FDINFO_XE)), time_sampled: 5 },
        FdEntry { st_mode: 0o100644, st_rdev: drm_rdev(128), fdinfo_path: String::from("/proc/1/fdinfo/4"), fdinfo: Some(String::from(FDINFO_XE)), time_sampled: 5 },
        FdEntry { st_mode: CHR_MODE, st_rdev: drm_rdev(0), fdinfo_path: String::from("/proc/1/fdinfo/5"), fdinfo: None, time_sampled: 5 },
        FdEntry { st_mode: CHR_MODE, st_rdev: drm_rdev(1), fdinfo_path: String::from("/proc/1/fdinfo/6"), fdinfo: Some(String::from("drm-client-id:\t3\n")), time_sampled: 5 },
        FdEntry { st_mode: CHR_MODE, st_rdev: drm_rdev(1), fdinfo_path: String::from("/proc/1/fdinfo/7"), fdinfo: Some(String::from("garbage\n")), time_sampled: 5 },
    ];
    let got = p.drm_fdinfos(fds);
    assert_eq!(got.len(), 1);
    assert_eq!(got[0].path, "/proc/1/fdinfo/3");
    assert_eq!(got[0].drm_minor, 128);
    assert_eq!(got[0].client_id, 42);
}

// ---------------------------------------------------------------------------
// clients
// ---------------------------------------------------------------------------

#[test]
fn acum_delta_meminfo_new_are_zero() {
    let a = DrmEnginesAcum::new();
    assert_eq!((a.acum_time, a.acum_cycles, a.acum_total_cycles), (0, 0, 0));
    let d = DrmEngineDelta::new();
    assert_eq!((d.delta_time, d.delta_cycles, d.delta_total_cycles), (0, 0, 0));
    let mut m = DrmClientMemInfo::new();
    m.acum(&DrmClientMemInfo { smem_used: 1, smem_rss: 2, vram_used: 3, vram_rss: 4 });
    m.acum(&DrmClientMemInfo { smem_used: 10, smem_rss: 20, vram_used: 30, vram_rss: 40 });
    assert_eq!(m, DrmClientMemInfo { smem_used: 11, smem_rss: 22, vram_used: 33, vram_rss: 44 });
}

#[test]
fn mem_classes_by_driver() {
    assert_eq!(mem_class(ClientMemDriver::Xe { discrete: true }, "stolen"), MemClass::Vram);
    assert_eq!(mem_class(ClientMemDriver::Xe { discrete: false }, "stolen"), MemClass::System);
    assert_eq!(mem_class(ClientMemDriver::Xe { discrete: false }, "gtt"), MemClass::System);
    assert_eq!(mem_class(ClientMemDriver::Xe { discrete: false }, "vram1"), MemClass::Vram);
    assert_eq!(mem_class(ClientMemDriver::I915, "stolen-local0"), MemClass::Vram);
    assert_eq!(mem_class(ClientMemDriver::I915, "system0"), MemClass::System);
    assert_eq!(mem_class(ClientMemDriver::Amdgpu, "cpu"), MemClass::System);
    assert_eq!(mem_class(ClientMemDriver::Amdgpu, "vram"), MemClass::Vram);
    assert_eq!(mem_class(ClientMemDriver::Amdgpu, "memory"), MemClass::Skipped);
    assert_eq!(mem_class(ClientMemDriver::Other, "system"), MemClass::Skipped);
}

#[test]
fn client_mem_info_sums_regions() {
    let f = DrmFdinfo::from(FDINFO_XE, String::new(), 0, 0).unwrap();
    let m = client_mem_info(ClientMemDriver::Xe { discrete: true }, &f.mem_regions);
    assert_eq!(m, DrmClientMemInfo { smem_used: 4096, smem_rss: 2048, vram_used: 8 * 1024 * 1024, vram_rss: 8 * 1024 * 1024 });
}

#[test]
fn client_from_then_update_tracks_deltas() {
    let p = proc_info("1", STAT, 0);
    let mut c = DrmClientInfo::from(p.duplicate(), sample(5, 1000, 10000, 100));
    assert_eq!(c.client_id, 5);
    assert_eq!(c.pci_dev, "0000:03:00.0");
    assert_eq!(c.nr_updates, 1);
    assert_eq!(c.ms_elapsed, 0);
    assert_eq!(c.engines(), vec!["rcs"]);
    // first sample: nothing moved, so not enough to tell utilization
    assert_eq!(c.eng_utilization(&String::from("rcs")), EngUtilization::Zero);
    assert!(c.is_active()); // holds memory
    c.update(p.duplicate(), sample(5, 1500, 12000, 600));
    assert_eq!(c.ms_elapsed, 500);
    assert_eq!(c.engs[0].delta.delta_cycles, 500);
    assert_eq!(c.engs[0].delta.delta_total_cycles, 2000);
    assert_eq!(c.engs_acum.acum_cycles, 1500);
    assert_eq!(
        c.eng_utilization(&String::from("rcs")),
        EngUtilization::Cycles { delta_cycles: 500, delta_total_cycles: 2000, capacity: 1 }
    );
    assert_eq!(c.eng_utilization(&String::from("vcs")), EngUtilization::Zero);
    // counters going back give no delta
    c.update(p.duplicate(), sample(5, 1400, 11000, 700));
    assert_eq!(c.engs[0].delta.delta_cycles, 0);
    assert_eq!(c.engs_acum.acum_cycles, 0);
}

#[test]
fn client_engines_sorted_and_follow_sample() {
    let p = proc_info("1", STAT, 0);
    let f = DrmFdinfo::from(FDINFO_XE, String::new(), 0, 0).unwrap();
    let mut c = DrmClientInfo::from(p.duplicate(), f);
    assert_eq!(c.engines(), vec!["ccs", "rcs"]);
    c.update(p.duplicate(), sample(42, 1, 1, 1));
    assert_eq!(c.engines(), vec!["rcs"]);
}

#[test]
fn client_engine_names_never_repeat() {
    let text = "drm-client-id:\t2\ndrm-pdev:\t0000:00:02.0\ndrm-engine-vcs:\t5 ns\n\
drm-engine-rcs:\t10 ns\ndrm-cycles-rcs:\t7\ndrm-total-cycles-rcs:\t9\ndrm-engine-capacity-rcs:\t2\n\
drm-cycles-vcs:\t3\n";
    let p = proc_info("1", STAT, 0);
    let mut c = DrmClientInfo::from(p.duplicate(), DrmFdinfo::from(text, String::new(), 0, 0).unwrap());
    assert_eq!(c.engines(), vec!["rcs", "vcs"]);
    c.update(p.duplicate(), DrmFdinfo::from(text, String::new(), 0, 5).unwrap());
    assert_eq!(c.engines(), vec!["rcs", "vcs"]);
    let mut q = QmDrmClientInfo::from(qm_proc(), QmDrmFdinfo::from(text, String::new(), 0, 0).unwrap());
    assert_eq!(q.engines(), vec!["rcs", "vcs"]);
    q.update(qm_proc(), QmDrmFdinfo::from(text, String::new(), 0, 5).unwrap());
    assert_eq!(q.engines(), vec!["rcs", "vcs"]);
}

#[test]
fn client_mem_info_without_driver_uses_memory_region() {
    let p = proc_info("1", STAT, 0);
    let f = DrmFdinfo::from("drm-client-id:\t1\ndrm-pdev:\t0000:00:02.0\ndrm-total-memory:\t2 KiB\ndrm-resident-memory:\t1 KiB\n", String::new(), 0, 0).unwrap();
    let mut c = DrmClientInfo::from(p.duplicate(), f);
    assert_eq!(c.mem_info(), DrmClientMemInfo { smem_used: 2048, smem_rss: 1024, vram_used: 0, vram_rss: 0 });
    c.set_driver(ClientMemDriver::I915);
    assert_eq!(c.mem_info(), DrmClientMemInfo::new());
    assert_eq!(c.total_mem(), 2048);
}

#[test]
fn client_idle_without_memory_is_inactive() {
    let p = proc_info("1", STAT, 0);
    let f = DrmFdinfo::from("drm-client-id:\t1\ndrm-pdev:\t0000:00:02.0\ndrm-engine-render:\t100 ns\n", String::new(), 0, 0).unwrap();
    let mut c = DrmClientInfo::from(p.duplicate(), f);
    assert!(!c.is_active());
    let f2 = DrmFdinfo::from("drm-client-id:\t1\ndrm-pdev:\t0000:00:02.0\ndrm-engine-render:\t900 ns\n", String::new(), 0, 10).unwrap();
    c.update(p.duplicate(), f2);
    assert!(c.is_active());
    assert_eq!(
        c.eng_utilization(&String::from("render")),
        EngUtilization::Time { delta_time: 800, ms_elapsed: 10, capacity: 1 }
    );
}

fn scan(pid: &str, fdis: Vec<DrmFdinfo>) -> ProcScan {
    ProcScan { proc: proc_info(pid, STAT, 0), fdinfos: fdis }
}

#[test]
fn clients_table_refresh_keeps_seen_clients_only() {
    let mut t = DrmClients::from_pid_tree("", false).unwrap();
    t.refresh(vec![scan("1", vec![sample(2, 10, 100, 0), sample(1, 10, 100, 0)]), scan("2", vec![])]);
    let cs = t.device_clients(&String::from("0000:03:00.0")).unwrap();
    let keys: Vec<(u32, u32)> = cs.iter().map(|c| (c.drm_minor, c.client_id)).collect();
    assert_eq!(keys, vec![(128, 1), (128, 2)]);
    assert_eq!(t.procs.len(), 1);
    // a second scan sees client 1 again (twice, from two processes) and not 2
    t.refresh(vec![scan("1", vec![sample(1, 20, 200, 50)]), scan("3", vec![sample(1, 20, 200, 50)])]);
    let cs = t.device_clients(&String::from("0000:03:00.0")).unwrap();
    assert_eq!(cs.len(), 1);
    assert_eq!(cs[0].client_id, 1);
    assert_eq!(cs[0].nr_updates, 2);
    assert_eq!(cs[0].engs[0].delta.delta_cycles, 10);
    assert_eq!(cs[0].shared_fdinfos, vec!["/proc/1/fdinfo/5"]);
    assert_eq!(t.procs.len(), 1);
    assert!(t.device_clients(&String::from("0000:00:02.0")).is_none());
}

#[test]
fn clients_driver_for_device() {
    let mut t = DrmClients::from_pid_tree("", false).unwrap();
    t.refresh(vec![scan("1", vec![sample(1, 10, 100, 0)])]);
    t.set_dev_clients_driver(&String::from("0000:03:00.0"), ClientMemDriver::Xe { discrete: true });
    let cs = t.device_clients(&String::from("0000:03:00.0")).unwrap();
    assert_eq!(cs[0].driver, Some(ClientMemDriver::Xe { discrete: true }));
    assert_eq!(cs[0].mem_info().smem_used, 4096);
}

#[test]
fn clients_table_rejects_invalid_pid() {
    assert!(DrmClients::from_pid_tree("abc", true).is_err());
    assert!(DrmClients::from_pid_tree("12", false).is_err());
    let t = DrmClients::from_pid_tree("12", true).unwrap();
    assert_eq!(t.base_pid, "12");
}

// ---------------------------------------------------------------------------
// first-generation clients, fdinfo, processes and devices
// ---------------------------------------------------------------------------

fn qm_sample(client: u32, cycles: u64, total: u64, t: u64) -> QmDrmFdinfo {
    QmDrmFdinfo::from(&fdinfo_text(client, cycles, total), String::from("/proc/9/fdinfo/4"), 0, t).unwrap()
}

fn qm_proc() -> QmProcInfo {
    QmProcInfo::from("9", "app\n", "app\0").unwrap()
}

#[test]
fn qm_fdinfo_and_proc() {
    let f = qm_sample(3, 10, 20, 1);
    assert_eq!(f.client_id, 3);
    assert_eq!(f.engines[0].name, "rcs");
    let e = QmDrmEngine::new("bcs");
    assert_eq!((e.capacity, e.time), (1, 0));
    let r = QmDrmMemRegion::new("gtt");
    assert_eq!(r.total, 0);
    assert_eq!(QmDrmFdinfo::mul_from_unit("GiB"), 1 << 30);
    let p = qm_proc();
    assert_eq!((p.pid, p.comm.as_str(), p.cmdline.as_str(), p.proc_dir.as_str()), (9, "app", "app ", "/proc/9"));
    let fds = vec![FdEntry { st_mode: CHR_MODE, st_rdev: drm_rdev(0), fdinfo_path: String::from("x"), fdinfo: Some(String::from("drm-client-id:\t8\n")), time_sampled: 0 }];
    let got = p.get_drm_fdinfos(fds);
    assert_eq!(got.len(), 1);
    assert_eq!(got[0].client_id, 8);
    let dev = QmDevice {
        subsystem: String::from("drm"), devnode: String::from("/dev/dri/card0"), devnum: (226, 0),
        sysname: String::from("0000:00:02.0"), syspath: String::new(), vendor_id: String::from("8086"),
        vendor: String::new(), device_id: String::from("56a0"), device: String::new(), drv_name: String::from("xe"),
    };
    let g = QmDrmFdinfo::from_drm_fdinfo(FDINFO_XE, String::from("p"), &dev, 4).unwrap();
    assert_eq!(g.pci_dev, "0000:00:02.0");
    assert_eq!((dev.major(), dev.minor()), (226, 0));
    assert_eq!(QmDevice::mj_mn_from_devnum(drm_rdev(129)), (226, 129));
}

#[test]
fn qm_client_update_rules() {
    let mut c = QmDrmClientInfo::from(qm_proc(), qm_sample(3, 100, 1000, 10));
    assert_eq!(c.engs[0].last.capacity, 1);
    assert_eq!(c.engs[0].delta.delta_cycles, 100);
    assert_eq!(c.eng_utilization(&String::from("rcs")), EngUtilization::Zero);
    c.update(qm_proc(), qm_sample(3, 150, 1200, 20));
    assert_eq!(c.engs[0].delta.delta_cycles, 50);
    assert_eq!(
        c.eng_utilization(&String::from("rcs")),
        EngUtilization::Cycles { delta_cycles: 50, delta_total_cycles: 200, capacity: 1 }
    );
    // a counter going back keeps its value and its previous delta
    c.update(qm_proc(), qm_sample(3, 120, 1300, 30));
    assert_eq!(c.engs[0].last.cycles, 150);
    assert_eq!(c.engs[0].delta.delta_cycles, 50);
    assert_eq!(c.engs[0].delta.delta_total_cycles, 100);
    assert!(c.is_active());
    assert_eq!(c.engines(), vec!["rcs"]);
    assert_eq!(c.mem_info(), QmDrmClientMemInfo::new());
    c.set_driver(ClientMemDriver::Xe { discrete: false });
    assert_eq!(c.mem_info().smem_used, 4096);
    assert_eq!(c.total_mem(), 4096);
    let a = QmDrmEnginesAcum::new();
    assert_eq!(a.acum_time, 0);
    let d = QmDrmEngineDelta::new();
    assert_eq!(d.delta_time, 0);
}

#[test]
fn qm_clients_table() {
    let mut t = QmDrmClients::from_pid_tree("");
    let mut f2 = qm_sample(2, 1, 1, 0);
    f2.pci_dev = String::from("0000:00:02.0");
    t.refresh(vec![QmProcScan { proc: qm_proc(), fdinfos: vec![qm_sample(7, 1, 1, 0), qm_sample(1, 1, 1, 0), f2] }]);
    assert_eq!(t.active_devices(), vec!["0000:00:02.0", "0000:03:00.0"]);
    let cs = t.device_clients(&String::from("0000:03:00.0")).unwrap();
    let ids: Vec<u32> = cs.iter().map(|c| c.client_id).collect();
    assert_eq!(ids, vec![1, 7]);
    t.refresh(vec![
        QmProcScan { proc: qm_proc(), fdinfos: vec![qm_sample(7, 5, 5, 1)] },
        QmProcScan { proc: qm_proc(), fdinfos: vec![qm_sample(7, 5, 5, 1)] },
    ]);
    assert_eq!(t.active_devices(), vec!["0000:03:00.0"]);
    let cs = t.device_clients(&String::from("0000:03:00.0")).unwrap();
    assert_eq!(cs.len(), 1);
    assert_eq!(cs[0].shared_procs.len(), 1);
    assert_eq!(cs[0].nr_updates, 2);
    t.set_dev_clients_driver(&String::from("0000:03:00.0"), ClientMemDriver::I915);
    assert_eq!(t.device_clients(&String::from("0000:03:00.0")).unwrap()[0].driver, Some(ClientMemDriver::I915));
}

#[test]
fn qm_devices_and_drivers() {
    let mut ds = QmDrmDevices::new();
    assert!(ds.is_empty());
    assert_eq!(ds.add_device_node(String::from("0000:03:00.0"), Some("8086:E212"), String::from("Intel"), String::from("B50"), "0x00", String::from("xe"), String::from("/dev/dri/card1"), drm_rdev(1)), Ok(true));
    assert_eq!(ds.add_device_node(String::from("0000:03:00.0"), Some("8086:E212"), String::from("Intel"), String::from("B50"), "0x00", String::from("xe"), String::from("/dev/dri/renderD128"), drm_rdev(128)), Ok(true));
    assert_eq!(ds.add_device_node(String::from("0000:00:02.0"), None, String::new(), String::new(), "", String::from("i915"), String::from("/dev/dri/card0"), drm_rdev(0)), Ok(false));
    assert_eq!(ds.add_device_node(String::from("0000:00:02.0"), Some("8086:46a6"), String::new(), String::new(), "0c", String::from("i915"), String::from("/dev/sda"), (8u64 << 8) | 0), Err(DeviceError::NotDrmMajor));
    assert_eq!(ds.devices(), vec!["0000:03:00.0"]);
    let d = ds.device_info(&String::from("0000:03:00.0")).unwrap();
    assert_eq!((d.vendor_id.as_str(), d.device_id.as_str(), d.revision.as_str()), ("8086", "E212", "00"));
    assert_eq!(d.drm_minors.len(), 2);
    assert_eq!(d.drm_minors[1].drm_minor, 128);
    assert_eq!(d.driver, Some(QmDrmDriverKind::Xe));
    assert_eq!(driver_from(d), Some(QmDrmDriverKind::Xe));
    assert_eq!(QmDrmDriverKind::I915.name(), "i915");
    assert_eq!(QmDrmDriverKind::Xe.mem_driver(QmDrmDeviceType::Discrete), ClientMemDriver::Xe { discrete: true });
    ds.clients_pid_tree("");
    let fq = QmDrmDeviceFreqs { min_freq: 1, cur_freq: 2, act_freq: 3, max_freq: 4 };
    ds.refresh(vec![(fq, QmDrmDeviceMemInfo::new())], vec![QmProcScan { proc: qm_proc(), fdinfos: vec![qm_sample(1, 1, 1, 0)] }]);
    assert_eq!(ds.infos[0].freqs, fq);
    let clis = ds.qmclis.as_ref().unwrap();
    let cs = ds.infos[0].clients(clis).unwrap();
    assert_eq!(cs[0].driver, Some(ClientMemDriver::Xe { discrete: false }));
    assert_eq!(QmDrmDeviceType::Discrete.to_string(), "Discrete");
    assert!(QmDrmDeviceType::Integrated.is_integrated());
    assert!(QmDrmMinorInfo::from(&String::from("/dev/dri/card0"), drm_rdev(0)).is_ok());
    assert_eq!(QmDrmDeviceFreqs::new().max_freq, 0);
}

#[test]
fn qm_drivers_and_app_data() {
    assert!(matches!(find_driver("xe"), QmDriverKind::Xe(_)));
    assert!(matches!(find_driver("i915"), QmDriverKind::NotImpl(_)));
    assert_eq!(find_driver("xe").name(), "xe");
    assert_eq!(XeDriver::new().name(), "xe");
    let mut st = QmAppDataDeviceStats::new();
    let mut ds = QmDrmDevices::new();
    ds.add_device_node(String::from("a"), Some("1234:5678"), String::new(), String::new(), "1", String::from("zz"), String::from("n"), drm_rdev(0)).unwrap();
    for _ in 0..12 {
        st.update_stats(&ds.infos[0]);
    }
    assert_eq!(st.freqs.len(), 10);
    assert_eq!(st.mem_info.len(), 10);
}

#[test]
fn qm_hwmon_file_path_separator() {
    let files: Vec<QmHwMonFile> = Vec::new();
    let h = QmHwMon::new(Some(String::from("/sys/y/hwmon0/")), true, &files).unwrap();
    assert_eq!(h.file_path("in1_input"), String::from("/sys/y/hwmon0/in1_input"));
    let h = QmHwMon::new(Some(String::new()), true, &files).unwrap();
    assert_eq!(h.file_path("in1_input"), String::from("in1_input"));
}

#[test]
fn qm_hwmon_values() {
    let files = vec![
        QmHwMonFile { name: String::from("power1_max"), is_file: true, content: String::from("25000000\n") },
        QmHwMonFile { name: String::from("power1_max_interval"), is_file: true, content: String::from(" 28 \n") },
        QmHwMonFile { name: String::from("in1_input"), is_file: true, content: String::from("950\n") },
        QmHwMonFile { name: String::from("device"), is_file: false, content: String::new() },
    ];
    let h = QmHwMon::new(Some(String::from("/sys/x/hwmon3")), true, &files).unwrap();
    assert_eq!(h.file_path("power1_max"), String::from("/sys/x/hwmon3/power1_max"));
    let s = |t: &str| Some(String::from(t));
    assert_eq!(h.power1_max(s("25000000\n")), s("25000000"));
    assert_eq!(h.power1_max_interval(s(" 28 \n")), s("28"));
    assert_eq!(h.in1_input(s("950\n")), s("950"));
    assert_eq!(h.energy1_input(s("123456\n")), s("123456"));
    assert_eq!(h.energy1_input(s("123999\n")), s("123999"));
    assert_eq!(h.power1_rated_max(s("\t5\n")), s("5"));
    assert_eq!(h.power2_max(s("7")), s("7"));
    assert_eq!(h.power2_rated_max(s("8\n")), s("8"));
    assert_eq!(h.power2_crit(s("9\n")), s("9"));
    assert_eq!(h.curr2_crit(s("10\n")), s("10"));
    assert_eq!(h.energy2_input(s("11\n")), s("11"));
    assert_eq!(h.power2_max_interval(s("12\n")), s("12"));
    assert_eq!(h.power2_max(None), None);
    assert_eq!(h.energy1_input(None), None);
    assert!(matches!(QmHwMon::new(None, true, &files), Err(QmHwMonError::NoHwmonDir)));
    assert!(matches!(QmHwMon::new(Some(String::new()), false, &files), Err(QmHwMonError::NoNameFile)));
}

// ---------------------------------------------------------------------------
// devices, hwmon, drivers
// ---------------------------------------------------------------------------

#[test]
fn device_type_names() {
    assert_eq!(DrmDeviceType::Discrete(VirtFn::SriovPF).to_string(), "Discrete (PF)");
    assert_eq!(DrmDeviceType::Integrated(VirtFn::NoVirt).to_string(), "Integrated");
    assert_eq!(DrmDeviceType::Integrated(VirtFn::VFIO).to_string(), "Integrated (VFIO)");
    assert_eq!(DrmDeviceType::Discrete(VirtFn::SriovVF).to_string(), "Discrete (VF)");
    assert_eq!(DrmDeviceType::Unknown.to_string(), "Unknown");
    assert!(DrmDeviceType::Discrete(VirtFn::NoVirt).is_discrete());
    assert!(!DrmDeviceType::Discrete(VirtFn::NoVirt).is_integrated());
    assert!(DrmDeviceType::Integrated(VirtFn::SriovVF).is_integrated());
}

#[test]
fn device_figures_start_at_zero() {
    let t = DrmDeviceThrottleReasons::new();
    assert!(!t.pl1 && !t.status);
    let l = DrmDeviceFreqLimits::new();
    assert_eq!((l.name.as_str(), l.minimum, l.maximum), ("", 0, 0));
    let f = DrmDeviceFreqs::new();
    assert_eq!((f.min_freq, f.act_freq), (0, 0));
    let m = DrmDeviceMemInfo::new();
    assert_eq!(m.vram_total, 0);
}

#[test]
fn device_nodes_and_pci_ids() {
    let n = DeviceNodeInfo::from_drm(String::from("/dev/dri/renderD129"), drm_rdev(129)).unwrap();
    assert_eq!((n.major, n.minor), (226, 129));
    assert_eq!(DeviceNodeInfo::from_drm(String::from("/dev/sda"), 8 << 8).unwrap_err(), DeviceError::NotDrmMajor);
    assert_eq!(pci_ids("8086:56A0"), (String::from("8086"), String::from("56A0")));
    assert_eq!(revision_of("0x08"), "08");
    assert_eq!(revision_of("c1"), "c1");
    assert!(slot_selected(&vec![], "0000:00:02.0"));
    assert!(slot_selected(&vec!["0000:03:00.0", "0000:00:02.0"], "0000:00:02.0"));
    assert!(!slot_selected(&vec!["0000:03:00.0"], "0000:00:02.0"));
}

fn hwmon_entry(name: &str, label: Option<&str>) -> HwmonEntry {
    HwmonEntry { name: String::from(name), is_symlink: false, is_dir: false, is_file: true, label_text: label.map(String::from) }
}

#[test]
fn hwmon_sensors_from_files() {
    let entries = vec![
        hwmon_entry("name", None),
        hwmon_entry("fan2_input", None),
        hwmon_entry("fan1_input", None),
        hwmon_entry("fan1_label", Some("  pump \n")),
        hwmon_entry("temp1_input", None),
        hwmon_entry("uevent", None),
        hwmon_entry("power", None),
        HwmonEntry { name: String::from("device_x"), is_symlink: true, is_dir: false, is_file: true, label_text: None },
    ];
    let h = Hwmon::from(Some(String::from("/sys/class/drm/card1/device/hwmon/hwmon3")), true, &entries).unwrap().unwrap();
    assert_eq!(h.sensors.len(), 3);
    let fans: Vec<&Sensor> = h.sensors("fan");
    assert_eq!(fans.len(), 2);
    assert!(fans[0].has_item("input"));
    assert!(!fans[0].has_item("label"));
    assert_eq!(fans[1].label, "pump");
    let readings = vec![
        SensorReading { stype: String::from("fan1"), text: Some(String::from("1200\n")) },
        SensorReading { stype: String::from("fan2"), text: Some(String::from("800\n")) },
    ];
    let fs = DrmDeviceFan::from_hwmon(&h, &readings).unwrap();
    let got: Vec<(&str, u64)> = fs.iter().map(|f| (f.name.as_str(), f.speed)).collect();
    assert_eq!(got, vec![("2", 800), ("pump", 1200)]);
    let bad = vec![SensorReading { stype: String::from("fan1"), text: Some(String::from("x")) }];
    assert_eq!(DrmDeviceFan::from_hwmon(&h, &bad).unwrap_err(), DeviceError::SensorUnreadable);
    let bad2 = vec![
        SensorReading { stype: String::from("fan2"), text: Some(String::from("x")) },
        SensorReading { stype: String::from("fan1"), text: Some(String::from("1")) },
    ];
    assert_eq!(DrmDeviceFan::from_hwmon(&h, &bad2).unwrap_err(), DeviceError::SensorInvalid);
    assert!(Hwmon::from(None, true, &entries).unwrap().is_none());
    assert!(Hwmon::from(Some(String::from("d")), false, &entries).unwrap().is_none());
    let unreadable = vec![hwmon_entry("temp1_label", None)];
    assert_eq!(Hwmon::from(Some(String::from("d")), true, &unreadable).unwrap_err(), HwmonError::LabelUnreadable);
    let s = Sensor::new("temp3");
    assert_eq!((s.stype.as_str(), s.label.as_str(), s.items.len()), ("temp3", "", 0));
}

#[test]
fn device_temperatures_by_name() {
    let entries = vec![
        hwmon_entry("temp2_input", None),
        hwmon_entry("temp1_input", None),
        hwmon_entry("temp1_label", Some("package")),
        hwmon_entry("temp3_crit", None),
        hwmon_entry("fan1_input", None),
    ];
    let h = Hwmon::from(Some(String::from("d")), true, &entries).unwrap().unwrap();
    let readings = vec![
        SensorReading { stype: String::from("temp1"), text: Some(String::from("45000\n")) },
        SensorReading { stype: String::from("temp2"), text: Some(String::from(" 51500\n")) },
    ];
    let ts = DrmDeviceTemperature::from_hwmon(&h, &readings).unwrap();
    let got: Vec<(&str, u64)> = ts.iter().map(|t| (t.name.as_str(), t.millidegrees)).collect();
    assert_eq!(got, vec![("2", 51500), ("package", 45000)]);
    let bad = vec![SensorReading { stype: String::from("temp2"), text: None }];
    assert_eq!(DrmDeviceTemperature::from_hwmon(&h, &bad).unwrap_err(), DeviceError::SensorUnreadable);
}

#[test]
fn hwmon_items_come_from_regular_files() {
    let mut h = Hwmon::from(Some(String::from("d")), true, &vec![
        hwmon_entry("temp1_input", None),
        hwmon_entry("temp1_label", Some(" edge \n")),
        HwmonEntry { name: String::from("temp1_max"), is_symlink: true, is_dir: false, is_file: true, label_text: None },
        HwmonEntry { name: String::from("temp1_crit"), is_symlink: false, is_dir: true, is_file: false, label_text: None },
    ]).unwrap().unwrap();
    assert_eq!(h.sensors.len(), 1);
    assert_eq!(h.sensors[0].label, "edge");
    assert_eq!(h.sensors[0].items, vec!["input"]);
    assert!(!h.sensors[0].has_item("label"));
    h.refresh(&vec![hwmon_entry("temp1_label", Some("junction")), hwmon_entry("temp1_emergency", None)]).unwrap();
    assert_eq!(h.sensors[0].label, "junction");
    assert_eq!(h.sensors[0].items, vec!["input", "emergency"]);
    assert!(!h.sensors[0].has_item("label"));
}

#[test]
fn client_stats_join_process_stats() {
    let mut clients = vec![(0u32, 1u32)];
    let mut active = false;
    assert!(acum_client_ids(&mut clients, &mut active, 7, "app", "app -x", 7, "app", "app -x", &vec![(0, 4)], true));
    assert_eq!(clients, vec![(0, 1), (0, 4)]);
    assert!(active);
    assert!(!acum_client_ids(&mut clients, &mut active, 7, "app", "app -x", 8, "app", "app -x", &vec![(0, 5)], false));
    assert!(!acum_client_ids(&mut clients, &mut active, 7, "app", "app -x", 7, "app", "app -x", &vec![(0, 5), (0, 6)], false));
    assert_eq!(clients, vec![(0, 1), (0, 4)]);
    assert!(active);
}

#[test]
fn hwmon_refresh_adds_items_once() {
    let mut h = Hwmon::from(Some(String::from("d")), true, &vec![hwmon_entry("temp1_input", None)]).unwrap().unwrap();
    h.refresh(&vec![hwmon_entry("temp1_input", None), hwmon_entry("temp1_crit", None)]).unwrap();
    assert_eq!(h.sensors.len(), 1);
    assert_eq!(h.sensors[0].items, vec!["input", "crit"]);
}

#[test]
fn intel_driver_options() {
    let opts = vec!["engines=pmu,devslot=0000:03:00.0", "freqs=pmu", "power=msr,devslot=0000:00:02.0", "bogus"];
    let o = IntelDriverOpts::from("0000:03:00.0", Some(&opts));
    assert!(o.has_engs_pmu());
    assert!(o.has_freqs_pmu());
    assert!(!o.has_power_msr());
    let o2 = IntelDriverOpts::from("0000:00:02.0", Some(&opts));
    assert!(!o2.has_engs_pmu());
    assert!(o2.has_freqs_pmu());
    assert!(o2.has_power_msr());
    let o3 = IntelDriverOpts::from("0000:00:02.0", None);
    assert_eq!(o3.opts, 0);
    let o4 = IntelDriverOpts::from("x", Some(&vec!["devslot=all,power=msr"]));
    assert!(o4.has_power_msr());
}

#[test]
fn sysfs_values() {
    assert_eq!(sysfs_u64("1300\n"), Ok(1300));
    assert_eq!(sysfs_u64(" 1300\n"), Err(SysfsError::InvalidNumber));
    assert!(sysfs_flag(" 1\n"));
    assert!(!sysfs_flag("0\n"));
    let texts = GtFreqTexts {
        min: String::from("300\n"),
        max: String::from("2400\n"),
        cur: Some(String::from("1200\n")),
        act: Some(String::from("1150\n")),
        throttle: vec![Some(String::from("1\n")), None, None, None, None, None, None, None, Some(String::from("1\n"))],
    };
    let f = gt_freqs(&texts, None, false).unwrap();
    assert_eq!((f.min_freq, f.cur_freq, f.act_freq, f.max_freq), (300, 1200, 1150, 2400));
    assert!(f.throttle_reasons.pl1 && f.throttle_reasons.status && !f.throttle_reasons.pl2);
    let g = gt_freqs(&texts, Some((10, 20)), false).unwrap();
    assert_eq!((g.cur_freq, g.act_freq), (10, 20));
    assert_eq!(gt_freqs(&texts, None, true).unwrap_err(), SysfsError::Missing);
}

#[test]
fn pmu_freq_counters() {
    let mut p = XeFreqsPmu { gts_data: vec![GtFreqsPmuData { last_cur: 0, last_act: 0 }], nr_updates: 0 };
    p.read_all();
    assert_eq!(p.freqs(0, &vec![2, 100, 90]), Ok((0, 0)));
    p.read_all();
    assert_eq!(p.freqs(0, &vec![2, 160, 130]), Ok((60, 40)));
    assert_eq!(p.freqs(0, &vec![2, 150, 130]), Err(SysfsError::BadCounter));
    assert_eq!(p.freqs(1, &vec![2, 150, 130]), Err(SysfsError::BadCounter));
    assert_eq!(xe_pmu_source_from("0000:03:00.0"), "xe_0000_03_00.0");
}

// ---------------------------------------------------------------------------
// screens and views
// ---------------------------------------------------------------------------

#[test]
fn client_stats_selection_cycles() {
    let mut s = ClientStatsState::new();
    assert_eq!(s.sel, 0);
    s.next();
    s.next();
    assert_eq!(s.sel, 2);
    s.next();
    assert_eq!(s.sel, 0);
    s.previous();
    assert_eq!(s.sel, 2);
    s.repeat_op();
    assert_eq!(s.sel, 1);
    s.next();
    s.previous();
    assert_eq!(s.sel, 1);
}

#[test]
fn device_tabs_wrap() {
    let mut t = DevicesTabState::new(vec![String::from("a"), String::from("b"), String::from("c")]);
    t.previous();
    assert_eq!(t.sel, 2);
    t.next();
    assert_eq!(t.sel, 0);
    let mut e = DevicesTabState::new(vec![]);
    assert!(e.is_empty());
    e.next();
    e.previous();
    assert_eq!(e.sel, 0);
}

#[test]
fn device_stats_selection_skips_empty_engines() {
    let nr = device_nr_charts(2, 0);
    assert_eq!(nr, vec![2, 1, 1, 0]);
    let mut s = DeviceStatsState::new();
    s.req_next();
    s.exec_req(&nr);
    assert_eq!((s.sel, s.sub_sel, s.req_op), (0, 1, -1));
    s.req_next();
    s.exec_req(&nr);
    assert_eq!((s.sel, s.sub_sel), (1, 0));
    s.exec_next(&nr);
    s.exec_next(&nr);
    assert_eq!((s.sel, s.sub_sel), (0, 0));
    s.exec_prev(&nr);
    assert_eq!((s.sel, s.sub_sel), (2, 0));
    s.exec_req(&nr);
    assert_eq!((s.sel, s.sub_sel), (2, 0));
    s.req_previous();
    s.exec_req(&nr);
    assert_eq!((s.sel, s.sub_sel), (1, 0));
    s.exec_prev(&nr);
    assert_eq!((s.sel, s.sub_sel), (0, 1));
}

#[test]
fn client_selected_keeps_fields() {
    let c = DrmClientSelected::new(String::from("0000:03:00.0"), true, 77, Some((128, 4)));
    assert_eq!((c.pci_dev.as_str(), c.is_dgfx, c.pid, c.client_key), ("0000:03:00.0", true, 77, Some((128, 4))));
}

#[test]
fn short_sizes_and_layout() {
    assert_eq!(decimal_string(0), "0");
    assert_eq!(decimal_string(18446744073709551615), "18446744073709551615");
    assert_eq!(short_mem_string(1023), "1023");
    assert_eq!(short_mem_string(1024), "1K");
    assert_eq!(short_mem_string(5 * 1024 * 1024 + 7), "5M");
    assert_eq!(short_mem_string(3 << 30), "3G");
    assert_eq!(mem_pair_label(2048, 1 << 30), "2K/1G");
    assert!(stats_fit_one_row(false, 2, 1, 50));
    assert!(!stats_fit_one_row(true, 2, 1, 59));
    assert!(stats_fit_one_row(true, 2, 1, 60));
}

#[test]
fn chart_selection() {
    let all = select_charts(None).unwrap();
    assert!(all.meminfo && all.engines && all.freqs && all.power && all.temps && all.fans);
    let some = select_charts(Some("power,temps")).unwrap();
    assert!(some.power && some.temps && !some.meminfo && !some.fans);
    assert_eq!(select_charts(Some("power,gpu")), Err(ChartError::InvalidChart));
    assert_eq!(select_charts(Some("")), Err(ChartError::InvalidChart));
}

#[test]
fn histories_are_bounded_and_aligned() {
    let mut h: VecDeque<u32> = VecDeque::new();
    for i in 0..45u32 {
        limited_vec_push(&mut h, i);
    }
    assert_eq!(h.len(), 40);
    assert_eq!(h.front(), Some(&5));
    assert_eq!(h.back(), Some(&44));
    let mi = |x: u64| DrmClientMemInfo { smem_used: x, smem_rss: x, vram_used: x, vram_rss: x };
    let mut a: VecDeque<DrmClientMemInfo> = VecDeque::from(vec![mi(1), mi(2), mi(3)]);
    let b: VecDeque<DrmClientMemInfo> = VecDeque::from(vec![mi(10), mi(20)]);
    acum_mem_info(&mut a, &b);
    let got: Vec<u64> = a.iter().map(|m| m.smem_used).collect();
    assert_eq!(got, vec![1, 12, 23]);
    assert_eq!(card_from(&String::from("/dev/dri/card1")), "card1");
    assert_eq!(card_from(&String::from("card1")), "card1");
}

#[test]
fn client_memory_checked_sums() {
    let p = proc_info("1", STAT, 0);
    let f = DrmFdinfo::from(FDINFO_XE, String::new(), 0, 0).unwrap();
    let mut c = DrmClientInfo::from(p.duplicate(), f);
    c.set_driver(ClientMemDriver::Xe { discrete: true });
    assert_eq!(c.checked_mem_info(), Some(c.mem_info()));
    let big = "drm-client-id:\t1\ndrm-pdev:\t0000:00:02.0\ndrm-total-system:\t18446744073709551615\ndrm-total-gtt:\t1\n";
    let f2 = DrmFdinfo::from(big, String::new(), 0, 0).unwrap();
    assert!(!qmassa::clients::client_mem_fits(ClientMemDriver::Xe { discrete: false }, &f2.mem_regions));
    let mut c2 = DrmClientInfo::from(p.duplicate(), f2);
    c2.set_driver(ClientMemDriver::Xe { discrete: false });
    assert_eq!(c2.checked_mem_info(), None);
}

#[test]
fn history_sums_fit_check() {
    let m = |x: u64| DrmClientMemInfo { smem_used: x, smem_rss: 0, vram_used: 0, vram_rss: 0 };
    let a: VecDeque<DrmClientMemInfo> = VecDeque::from(vec![m(1), m(u64::MAX - 1)]);
    let b: VecDeque<DrmClientMemInfo> = VecDeque::from(vec![m(1)]);
    assert!(qmassa::appdata::acum_mem_info_fits(&a, &b));
    let c: VecDeque<DrmClientMemInfo> = VecDeque::from(vec![m(2)]);
    assert!(!qmassa::appdata::acum_mem_info_fits(&a, &c));
    assert!(qmassa::appdata::acum_mem_info_fits(&VecDeque::new(), &VecDeque::new()));
}

#[test]
fn engine_names_merged_once_in_order() {
    let names = vec![String::from("rcs"), String::from("bcs")];
    let found = vec![String::from("vcs"), String::from("bcs"), String::from("ccs"), String::from("ccs")];
    let merged = qmassa::appdata::merge_eng_names(&names, &found);
    assert_eq!(merged, vec!["bcs", "ccs", "rcs", "vcs"]);
    assert!(qmassa::appdata::merge_eng_names(&vec![], &vec![]).is_empty());
}

#[test]
fn device_chart_move_allowed() {
    let mut st = DeviceStatsState::new();
    let nr = device_nr_charts(1, 0);
    assert!(st.req_allowed(&nr));
    st.req_previous();
    assert!(st.req_allowed(&nr));
    st.exec_req(&nr);
    // from frequencies back: engines have no chart, so meminfo
    assert_eq!(st.sel, 2);
    let empty = vec![0u8, 0, 0, 0];
    st.req_previous();
    assert!(!st.req_allowed(&empty));
}

#[test]
fn device_nodes_and_label_as_shown() {
    let nodes = vec![String::from("/dev/dri/card1"), String::from("/dev/dri/renderD128"), String::from("other")];
    assert_eq!(dev_nodes_text(&nodes), "card1, renderD128, other");
    assert_eq!(dev_nodes_text(&vec![String::from("/dev/dri/card0")]), "card0");
    assert_eq!(device_label("Intel Corporation", "Lunar Lake", "04", "0000:00:02.0"), "Intel Corporation Lunar Lake (rev 04)");
    assert_eq!(device_label("", "x", "y", "0000:00:02.0"), "0000:00:02.0");
}

#[test]
fn client_stats_grouped_by_pid() {
    let pids = vec![30, 10, 30, 20, 10];
    assert_eq!(pids_in_order(&pids), vec![10, 20, 30]);
    assert_eq!(pid_members(&pids, 30), vec![0, 2]);
    assert_eq!(pid_members(&pids, 10), vec![1, 4]);
    assert_eq!(pid_members(&pids, 99), Vec::<usize>::new());
    assert_eq!(pids_in_order(&vec![]), Vec::<u32>::new());
}

#[test]
fn client_stats_found_by_key() {
    let pids = vec![7, 7, 8];
    let clients = vec![vec![(1, 2), (1, 3)], vec![(1, 3)], vec![(1, 3)]];
    assert_eq!(find_single_client(&pids, &clients, 7, (1, 3)), Some(1));
    assert_eq!(find_single_client(&pids, &clients, 8, (1, 3)), Some(2));
    assert_eq!(find_single_client(&pids, &clients, 7, (1, 2)), None);
    assert_eq!(client_key_pos(&vec![(1, 2), (1, 3), (1, 3)], (1, 3)), Some(1));
    assert_eq!(client_key_pos(&vec![(1, 2)], (2, 2)), None);
    assert!(acum_allowed(7, "app", "app -x", 7, "app", "app -x", 1));
    assert!(!acum_allowed(7, "app", "app -x", 7, "app", "app -y", 1));
    assert!(!acum_allowed(7, "app", "app -x", 7, "app", "app -x", 2));
    assert!(!acum_allowed(7, "app", "app -x", 8, "app", "app -x", 1));
}

#[test]
fn fans_sorted_by_name_keep_their_order() {
    let fan = |n: &str, sp: u64| DrmDeviceFan { name: String::from(n), speed: sp };
    let v = vec![fan("2", 900), fan("1", 100), fan("2", 800), fan("1", 50)];
    let r = sort_fans(v);
    let got: Vec<(String, u64)> = r.into_iter().map(|f| (f.name, f.speed)).collect();
    assert_eq!(got, vec![
        (String::from("1"), 100), (String::from("1"), 50),
        (String::from("2"), 900), (String::from("2"), 800),
    ]);
}

#[test]
fn clients_show_their_process_as_the_table_holds_it() {
    let mut t = DrmClients::from_pid_tree("", false).unwrap();
    let later = STAT.replace(" 250 50 ", " 400 100 ");
    let second = ProcScan { proc: proc_info("1", &later, 1500), fdinfos: vec![sample(2, 10, 100, 0)] };
    t.refresh(vec![scan("1", vec![sample(1, 10, 100, 0)]), second]);
    assert_eq!(t.procs.len(), 1);
    assert_eq!(t.procs[0].nr_updates, 3);
    assert_eq!(t.procs[0].cputime_last, 500);
    let cs = t.device_clients(&String::from("0000:03:00.0")).unwrap();
    assert_eq!(cs.len(), 2);
    for c in cs.iter() {
        assert_eq!(c.proc.nr_updates, 3);
        assert_eq!(c.proc.cputime_delta, 200);
        assert_eq!(c.proc.ms_elapsed, 1500);
    }
}

#[test]
fn metric_labels_of_a_device() {
    assert_eq!(pci_id_label("8086", "E212"), "8086:E212");
    let nodes = vec![String::from("/dev/dri/card1"), String::from("/dev/dri/renderD128")];
    assert_eq!(dev_nodes_label(&nodes), "/dev/dri/card1,/dev/dri/renderD128");
    assert_eq!(dev_nodes_label(&vec![]), "");
}
