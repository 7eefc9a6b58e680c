# qmassa

GPU usage statistics for Linux DRM devices, with the logic that turns what
the kernel reports into statistics proved correct by Verus.

## Layout

- `src/`: the verified library.
  - `text`: character-level parsing (lines, tokens, splitting, trimming,
    unsigned numbers) and the lexicographic order of names.
  - `fdinfo`, `procinfo`: DRM fdinfo and `/proc/<pid>/stat` parsing, the
    processes under watch and their DRM fdinfos.
  - `clients`: per-client engine and memory accounting across samples, and
    the table of clients by device that each scan rebuilds.
  - `devices`, `drmdevices`, `hwmon`: device identity, nodes, figures and
    fans, the devices under watch, hwmon sensors.
  - `drivers`, `drvdata`, `amdgpu`, `power`, `intel`: what the `xe`, `i915`
    and `amdgpu` drivers make of sysfs, hwmon, PMU, MSR and ioctl data.
  - `appdata`, `view`, `ui`: bounded histories, client statistics found
    and grouped by process, labels (also those of the exported metrics) and
    chart selection, and the state machines of the terminal UI.
  - `qm*`: the first-generation device, fdinfo, client and hwmon tracking.
  - `devnum`: device numbers, the only place that calls `libc`.
- `tests/`: tests of the library on concrete values.
- `app/`: the `qmassa` program: command line, udev device discovery,
  `/proc` and sysfs reading, DRM ioctls, the terminal UI, JSON recording and
  replay, SVG plots, and the export of the statistics as Prometheus metrics.
