//! Hardware monitoring (hwmon) sensors: the sensors that the files of an
//! hwmon directory describe (`<type><n>_<item>`), and their labels.
use vstd::prelude::*;

use crate::text::{chars_of, eq_lit, find_char, is_prefix, spec_trim, string_of, trim_range};

verus! {

/// Why an hwmon directory could not be read.
#[derive(Debug, Clone, Copy, PartialEq, Eq, Structural)]
pub enum HwmonError {
    /// A sensor's `label` file could not be read.
    LabelUnreadable,
}

/// One sensor: its type and number (`temp1`, `fan2`, ...), its label, and
/// the items that it has files for.
#[derive(Debug)]
pub struct Sensor {
    pub stype: String,
    pub label: String,
    pub items: Vec<String>,
}

pub struct SensorModel {
    pub stype: Seq<char>,
    pub label: Seq<char>,
    pub items: Seq<Seq<char>>,
}

impl View for Sensor {
    type V = SensorModel;

    open spec fn view(&self) -> SensorModel {
        SensorModel {
            stype: self.stype@,
            label: self.label@,
            items: self.items@.map_values(|s: String| s@),
        }
    }
}

/// One file of an hwmon directory, as the caller found it: its name, its
/// kind, and for a `*_label` file the text read from it (`None` when the read
/// failed).
pub struct HwmonEntry {
    pub name: String,
    pub is_symlink: bool,
    pub is_dir: bool,
    pub is_file: bool,
    pub label_text: Option<String>,
}

/// The sensors of one hwmon directory.
#[derive(Debug)]
pub struct Hwmon {
    pub base_dir: String,
    pub sensors: Vec<Sensor>,
}

/// Index of the first `'_'` of a file name, or its length.
pub open spec fn underscore_at(name: Seq<char>) -> int {
    crate::text::find_from(name, 0, '_')
}

/// The sensor type and item that a file stands for: the parts of its name
/// before and after the first `'_'`, both non-empty. Symbolic links,
/// directories, non-regular files and the `name` and `uevent` files stand
/// for none.
pub open spec fn entry_sensor_item(e: HwmonEntry) -> Option<(Seq<char>, Seq<char>)> {
    let n = e.name@;
    let u = underscore_at(n);
    if e.is_symlink || e.is_dir || !e.is_file || n == "name"@ || n == "uevent"@ {
        None
    } else if u >= n.len() || u == 0 || u + 1 == n.len() {
        None
    } else {
        Some((n.take(u), n.skip(u + 1)))
    }
}

/// First index of the sensor of type `st`, or `ss.len()`.
pub open spec fn sensor_index_from(ss: Seq<SensorModel>, st: Seq<char>, i: int) -> int
    decreases ss.len() - i,
{
    if i < 0 || i >= ss.len() {
        ss.len() as int
    } else if ss[i].stype == st {
        i
    } else {
        sensor_index_from(ss, st, i + 1)
    }
}

pub open spec fn sensor_index(ss: Seq<SensorModel>, st: Seq<char>) -> int {
    sensor_index_from(ss, st, 0)
}

proof fn lemma_sensor_index_from(ss: Seq<SensorModel>, st: Seq<char>, i: int)
    requires
        0 <= i <= ss.len(),
    ensures
        i <= sensor_index_from(ss, st, i) <= ss.len(),
        sensor_index_from(ss, st, i) < ss.len() ==> ss[sensor_index_from(ss, st, i)].stype == st,
    decreases ss.len() - i,
{
    if i < ss.len() && ss[i].stype != st {
        lemma_sensor_index_from(ss, st, i + 1);
    }
}

/// The sensors once the sensor of type `st` is there (a new one, unlabeled
/// and without items, is added at the end).
pub open spec fn with_sensor(ss: Seq<SensorModel>, st: Seq<char>) -> Seq<SensorModel> {
    if sensor_index(ss, st) >= ss.len() {
        ss.push(SensorModel { stype: st, label: Seq::empty(), items: Seq::empty() })
    } else {
        ss
    }
}

/// The effect of one file on the sensors: its sensor is added if new; a
/// `label` file sets the sensor's label to its trimmed text, any other item
/// is recorded once. A label that could not be read stops the reading, the
/// sensor added all the same.
pub open spec fn apply_entry(ss: Seq<SensorModel>, e: HwmonEntry) -> (Seq<SensorModel>, Option<HwmonError>) {
    match entry_sensor_item(e) {
        None => (ss, None),
        Some((st, item)) => {
            let ss2 = with_sensor(ss, st);
            let j = sensor_index(ss2, st);
            if item == "label"@ {
                match e.label_text {
                    None => (ss2, Some(HwmonError::LabelUnreadable)),
                    Some(t) => (ss2.update(j, SensorModel { label: spec_trim(t@), ..ss2[j] }), None),
                }
            } else if ss2[j].items.contains(item) {
                (ss2, None)
            } else {
                (ss2.update(j, SensorModel { items: ss2[j].items.push(item), ..ss2[j] }), None)
            }
        },
    }
}

/// The sensors after the files `es`, read in order until a label cannot be
/// read.
pub open spec fn apply_entries(ss: Seq<SensorModel>, es: Seq<HwmonEntry>) -> (Seq<SensorModel>, Option<HwmonError>)
    decreases es.len(),
{
    if es.len() == 0 {
        (ss, None)
    } else {
        let (ss1, err) = apply_entry(ss, es[0]);
        match err {
            Some(e) => (ss1, Some(e)),
            None => apply_entries(ss1, es.skip(1)),
        }
    }
}

/// Sensors as a directory gives them: one per type, and each with distinct,
/// non-empty items, none of them `label` (a label file sets the label).
pub open spec fn sensors_wf(ss: Seq<SensorModel>) -> bool {
    &&& forall|i: int, j: int| 0 <= i < j < ss.len() ==> (#[trigger] ss[i]).stype != (#[trigger] ss[j]).stype
    &&& forall|i: int, k: int|
        0 <= i < ss.len() && 0 <= k < ss[i].items.len() ==> (#[trigger] ss[i].items[k]) != "label"@
            && ss[i].items[k].len() > 0
    &&& forall|i: int, k: int, l: int|
        0 <= i < ss.len() && 0 <= k < l < ss[i].items.len() ==> (#[trigger] ss[i].items[k]) != (#[trigger] ss[i].items[l])
}

/// No sensor read from a directory has an item `label`: its label file
/// sets the label.
pub proof fn lemma_no_label_item(ss: Seq<SensorModel>, i: int)
    requires
        sensors_wf(ss),
        0 <= i < ss.len(),
    ensures
        !ss[i].items.contains("label"@),
{
    if ss[i].items.contains("label"@) {
        let k = choose|k: int| 0 <= k < ss[i].items.len() && ss[i].items[k] == "label"@;
        assert(ss[i].items[k] != "label"@);
    }
}

/// Among the files `es` is a regular file named `<st>_<item>`.
pub open spec fn seen_item(es: Seq<HwmonEntry>, st: Seq<char>, item: Seq<char>) -> bool {
    exists|q: int|
        0 <= q < es.len() && (#[trigger] es[q]).is_file && !es[q].is_symlink && !es[q].is_dir
            && es[q].name@ == st + seq!['_'] + item
}

/// Some sensor of type `st` among `ss` has the item `item`.
pub open spec fn had_item(ss: Seq<SensorModel>, st: Seq<char>, item: Seq<char>) -> bool {
    exists|i: int| 0 <= i < ss.len() && (#[trigger] ss[i]).stype == st && ss[i].items.contains(item)
}

/// The sensors of a directory read from nothing, then from the files of
/// each of `hs` in turn: what `Hwmon::from` and then `refresh` calls give.
pub open spec fn sensors_after(hs: Seq<Seq<HwmonEntry>>) -> Seq<SensorModel>
    decreases hs.len(),
{
    if hs.len() == 0 {
        Seq::empty()
    } else {
        apply_entries(sensors_after(hs.drop_last()), hs.last()).0
    }
}

/// A file that stands for an item is a regular file named `<type>_<item>`.
proof fn lemma_entry_named(e: HwmonEntry, st: Seq<char>, item: Seq<char>)
    requires
        entry_sensor_item(e) == Some((st, item)),
    ensures
        e.is_file && !e.is_symlink && !e.is_dir && e.name@ == st + seq!['_'] + item,
{
    let n = e.name@;
    crate::text::lemma_find_from_bounds(n, 0, '_');
    let u = underscore_at(n);
    assert(n =~= n.take(u) + seq!['_'] + n.skip(u + 1));
}

/// An item that one file leaves on a sensor was there before, or the file
/// stands for it.
proof fn lemma_apply_entry_items(ss: Seq<SensorModel>, e: HwmonEntry, i: int, k: int)
    requires
        0 <= i < apply_entry(ss, e).0.len(),
        0 <= k < apply_entry(ss, e).0[i].items.len(),
    ensures
        ({
            let s = apply_entry(ss, e).0[i];
            had_item(ss, s.stype, s.items[k]) || entry_sensor_item(e) == Some((s.stype, s.items[k]))
        }),
{
    let r = apply_entry(ss, e).0;
    match entry_sensor_item(e) {
        None => {
            assert(ss[i].items.contains(ss[i].items[k]));
        },
        Some((st, item)) => {
            lemma_sensor_index_from(ss, st, 0);
            let ss2 = with_sensor(ss, st);
            lemma_sensor_index_from(ss2, st, 0);
            let j = sensor_index(ss2, st);
            if sensor_index(ss, st) >= ss.len() {
                lemma_index_at(ss2, st, ss.len() as int);
            }
            assert(i < ss2.len());
            if i == j && !(item == "label"@) && !ss2[j].items.contains(item) && k == ss2[j].items.len() {
                assert(r[i].items[k] == item);
                assert(r[i].stype == st);
            } else {
                assert(r[i].stype == ss2[i].stype);
                assert(k < ss2[i].items.len());
                assert(r[i].items[k] == ss2[i].items[k]);
                assert(i < ss.len());
                assert(ss2[i] == ss[i]);
                assert(ss[i].items.contains(ss[i].items[k]));
            }
        },
    }
}

/// An item that reading the files `es` leaves on a sensor was there
/// before, or one of the files is named for it.
proof fn lemma_apply_entries_items(ss: Seq<SensorModel>, es: Seq<HwmonEntry>, st: Seq<char>, item: Seq<char>)
    requires
        had_item(apply_entries(ss, es).0, st, item),
    ensures
        had_item(ss, st, item) || seen_item(es, st, item),
    decreases es.len(),
{
    if es.len() > 0 {
        let (ss1, err) = apply_entry(ss, es[0]);
        let rest = es.skip(1);
        let from_first = had_item(ss1, st, item);
        if err is None {
            lemma_apply_entries_items(ss1, rest, st, item);
            if seen_item(rest, st, item) {
                let q = choose|q: int|
                    0 <= q < rest.len() && (#[trigger] rest[q]).is_file && !rest[q].is_symlink && !rest[q].is_dir
                        && rest[q].name@ == st + seq!['_'] + item;
                assert(es[q + 1] == rest[q]);
            }
        }
        if from_first {
            let i = choose|i: int| 0 <= i < ss1.len() && (#[trigger] ss1[i]).stype == st && ss1[i].items.contains(item);
            let k = choose|k: int| 0 <= k < ss1[i].items.len() && ss1[i].items[k] == item;
            lemma_apply_entry_items(ss, es[0], i, k);
            if entry_sensor_item(es[0]) == Some((st, item)) {
                lemma_entry_named(es[0], st, item);
            }
        }
    }
}

/// What a sensor's items are, over every reading of its directory: after
/// `Hwmon::from` and any `refresh` calls, given the files `hs` in turn,
/// each item of each sensor is non-empty, is never `label` (a label file
/// sets the label), and comes from a regular file named `<type>_<item>`
/// that one of those readings was given.
pub proof fn lemma_items_seen_in_history(hs: Seq<Seq<HwmonEntry>>, i: int, item: Seq<char>)
    requires
        0 <= i < sensors_after(hs).len(),
        sensors_after(hs)[i].items.contains(item),
    ensures
        item.len() > 0,
        item != "label"@,
        exists|r: int| 0 <= r < hs.len() && seen_item(#[trigger] hs[r], sensors_after(hs)[i].stype, item),
    decreases hs.len(),
{
    let ss = sensors_after(hs);
    let st = ss[i].stype;
    lemma_sensors_after_wf(hs);
    lemma_no_label_item(ss, i);
    let k = choose|k: int| 0 <= k < ss[i].items.len() && ss[i].items[k] == item;
    assert(ss[i].items[k].len() > 0);
    if hs.len() > 0 {
        let prev = hs.drop_last();
        assert(had_item(ss, st, item));
        lemma_apply_entries_items(sensors_after(prev), hs.last(), st, item);
        if seen_item(hs.last(), st, item) {
            assert(hs[hs.len() - 1] == hs.last());
        } else {
            let ps = sensors_after(prev);
            let i0 = choose|i0: int| 0 <= i0 < ps.len() && (#[trigger] ps[i0]).stype == st && ps[i0].items.contains(item);
            lemma_items_seen_in_history(prev, i0, item);
            let r = choose|r: int| 0 <= r < prev.len() && seen_item(#[trigger] prev[r], st, item);
            assert(hs[r] == prev[r]);
        }
    }
}

/// Any readings keep the sensors as a directory gives them.
pub proof fn lemma_sensors_after_wf(hs: Seq<Seq<HwmonEntry>>)
    ensures
        sensors_wf(sensors_after(hs)),
    decreases hs.len(),
{
    if hs.len() > 0 {
        lemma_sensors_after_wf(hs.drop_last());
        lemma_apply_entries_wf(sensors_after(hs.drop_last()), hs.last());
    }
}

/// One file keeps the sensors as a directory gives them.
pub proof fn lemma_apply_entry_wf(ss: Seq<SensorModel>, e: HwmonEntry)
    requires
        sensors_wf(ss),
    ensures
        sensors_wf(apply_entry(ss, e).0),
{
    match entry_sensor_item(e) {
        None => {},
        Some((st, item)) => {
            let n = e.name@;
            let u = underscore_at(n);
            crate::text::lemma_find_from_bounds(n, 0, '_');
            assert(item == n.skip(u + 1));
            assert(item.len() > 0);
            lemma_sensor_index_from(ss, st, 0);
            let ss2 = with_sensor(ss, st);
            if sensor_index(ss, st) >= ss.len() {
                assert forall|q: int| 0 <= q < ss.len() implies ss[q].stype != st by {
                    if ss[q].stype == st {
                        lemma_index_at(ss, st, q);
                    }
                }
                lemma_index_first(ss2, st, ss.len() as int);
                assert(sensors_wf(ss2)) by {
                    assert forall|i: int, j: int| 0 <= i < j < ss2.len() implies (#[trigger] ss2[i]).stype != (#[trigger] ss2[j]).stype by {
                        if j == ss.len() {
                            assert(ss2[i] == ss[i]);
                        } else {
                            assert(ss2[i] == ss[i] && ss2[j] == ss[j]);
                        }
                    }
                    assert forall|i: int, k: int|
                        0 <= i < ss2.len() && 0 <= k < ss2[i].items.len() implies (#[trigger] ss2[i].items[k]) != "label"@
                            && ss2[i].items[k].len() > 0 by {
                        assert(i < ss.len());
                        assert(ss2[i] == ss[i]);
                    }
                    assert forall|i: int, k: int, l: int|
                        0 <= i < ss2.len() && 0 <= k < l < ss2[i].items.len() implies (#[trigger] ss2[i].items[k]) != (#[trigger] ss2[i].items[l]) by {
                        assert(i < ss.len());
                        assert(ss2[i] == ss[i]);
                    }
                }
            }
            let j = sensor_index(ss2, st);
            lemma_sensor_index_from(ss2, st, 0);
            assert(0 <= j < ss2.len());
            if item == "label"@ {
                match e.label_text {
                    None => {},
                    Some(t) => {
                        let ss3 = ss2.update(j, SensorModel { label: spec_trim(t@), ..ss2[j] });
                        assert forall|i: int| 0 <= i < ss3.len() implies (#[trigger] ss3[i]).stype == ss2[i].stype
                            && ss3[i].items == ss2[i].items by {}
                    },
                }
            } else if !ss2[j].items.contains(item) {
                let ni = ss2[j].items.push(item);
                let ss3 = ss2.update(j, SensorModel { items: ni, ..ss2[j] });
                assert forall|i: int, k: int|
                    0 <= i < ss3.len() && 0 <= k < ss3[i].items.len() implies (#[trigger] ss3[i].items[k]) != "label"@
                        && ss3[i].items[k].len() > 0 by {
                    if i == j && k == ss2[j].items.len() {
                        assert(ss3[i].items[k] == item);
                    } else if i == j {
                        assert(ss3[i].items[k] == ss2[j].items[k]);
                    } else {
                        assert(ss3[i] == ss2[i]);
                    }
                }
                assert forall|i: int, k: int, l: int|
                    0 <= i < ss3.len() && 0 <= k < l < ss3[i].items.len() implies (#[trigger] ss3[i].items[k]) != (#[trigger] ss3[i].items[l]) by {
                    if i == j {
                        if l == ss2[j].items.len() {
                            assert(ss3[i].items[k] == ss2[j].items[k]);
                            assert(ss3[i].items[l] == item);
                            if ss2[j].items[k] == item {
                                assert(ss2[j].items.contains(item));
                            }
                        } else {
                            assert(ss3[i].items[k] == ss2[j].items[k]);
                            assert(ss3[i].items[l] == ss2[j].items[l]);
                        }
                    } else {
                        assert(ss3[i] == ss2[i]);
                    }
                }
                assert forall|i: int, i2: int| 0 <= i < i2 < ss3.len() implies (#[trigger] ss3[i]).stype != (#[trigger] ss3[i2]).stype by {
                    assert(ss3[i].stype == ss2[i].stype && ss3[i2].stype == ss2[i2].stype);
                }
            }
        },
    }
}

/// Reading any files keeps the sensors as a directory gives them: one per
/// type, with distinct, non-empty items, and never an item `label`.
pub proof fn lemma_apply_entries_wf(ss: Seq<SensorModel>, es: Seq<HwmonEntry>)
    requires
        sensors_wf(ss),
    ensures
        sensors_wf(apply_entries(ss, es).0),
    decreases es.len(),
{
    if es.len() > 0 {
        lemma_apply_entry_wf(ss, es[0]);
        let (ss1, err) = apply_entry(ss, es[0]);
        if err is None {
            lemma_apply_entries_wf(ss1, es.skip(1));
        }
    }
}

impl Sensor {
    /// Whether the sensor has a file for `item`.
    pub fn has_item(&self, item: &str) -> (r: bool)
        ensures
            r == self@.items.contains(item@),
    {
        let mut k: usize = 0;
        while k < self.items.len()
            invariant
                k <= self.items@.len(),
                forall|q: int| 0 <= q < k ==> self.items@[q]@ != item@,
            decreases self.items@.len() - k,
        {
            if self.items[k].as_str().unicode_len() == item.unicode_len() && str_eq(
                self.items[k].as_str(),
                item,
            ) {
                assert(self@.items[k as int] == item@);
                return true;
            }
            k = k + 1;
        }
        assert forall|q: int| 0 <= q < self@.items.len() implies self@.items[q] != item@ by {
            assert(self@.items[q] == self.items@[q]@);
        }
        false
    }

    pub fn new(stype: &str) -> (r: Sensor)
        ensures
            r@ == (SensorModel { stype: stype@, label: Seq::empty(), items: Seq::empty() }),
    {
        let r = Sensor { stype: String::from_str(stype), label: String::new(), items: Vec::new() };
        assert(r@.items =~= Seq::<Seq<char>>::empty());
        r
    }
}

/// Whether two texts are equal.
pub fn str_eq(a: &str, b: &str) -> (r: bool)
    ensures
        r == (a@ == b@),
{
    let v = chars_of(a);
    assert(v@.subrange(0, v@.len() as int) =~= v@);
    eq_lit(&v, 0, v.len(), b)
}

impl Hwmon {
    pub open spec fn model(&self) -> Seq<SensorModel> {
        self.sensors@.map_values(|s: Sensor| s@)
    }

    /// One sensor per type, each with distinct, non-empty items, none of
    /// them `label`.
    pub open spec fn wf(&self) -> bool {
        sensors_wf(self.model())
    }

    /// The sensors whose type starts with `stype`, in table order.
    pub fn sensors(&self, stype: &str) -> (r: Vec<&Sensor>)
        ensures
            r@.map_values(|s: &Sensor| s@) == self.model().filter(
                |s: SensorModel| is_prefix(stype@, s.stype),
            ),
            self.wf() ==> forall|i: int, j: int| 0 <= i < j < r@.len() ==> (#[trigger] r@[i]).stype@ != (#[trigger] r@[j]).stype@,
    {
        let ghost m = self.model();
        let mut res: Vec<&Sensor> = Vec::new();
        let mut k: usize = 0;
        assert(m.take(0) =~= Seq::<SensorModel>::empty());
        while k < self.sensors.len()
            invariant
                k <= self.sensors@.len(),
                m == self.model(),
                res@.map_values(|s: &Sensor| s@) == m.take(k as int).filter(
                    |s: SensorModel| is_prefix(stype@, s.stype),
                ),
                forall|i: int| 0 <= i < res@.len() ==> exists|q: int| 0 <= q < k && (#[trigger] res@[i])@ == m[q],
                self.wf() ==> forall|i: int, j: int| 0 <= i < j < res@.len() ==> (#[trigger] res@[i]).stype@ != (#[trigger] res@[j]).stype@,
            decreases self.sensors@.len() - k,
        {
            let s = &self.sensors[k];
            let v = chars_of(s.stype.as_str());
            assert(v@.subrange(0, v@.len() as int) =~= v@);
            proof {
                assert(m.take(k + 1).drop_last() =~= m.take(k as int));
                assert(m.take(k + 1).last() == s@);
                m.take(k + 1).lemma_filter_push(m.take(k + 1).last(), |x: SensorModel| is_prefix(stype@, x.stype));
                assert(m.take(k as int).push(s@) =~= m.take(k + 1));
                m.take(k as int).lemma_filter_push(s@, |x: SensorModel| is_prefix(stype@, x.stype));
            }
            if crate::text::starts_with_lit(&v, 0, v.len(), stype) {
                let ghost before = res@;
                res.push(s);
                assert(res@.map_values(|s: &Sensor| s@) =~= before.map_values(|s: &Sensor| s@).push(s@));
                proof {
                    assert(s@ == m[k as int]);
                    assert forall|i: int| 0 <= i < res@.len() implies exists|q: int| 0 <= q < k + 1 && (#[trigger] res@[i])@ == m[q] by {
                        if i < before.len() {
                            assert(res@[i] == before[i]);
                            let q = choose|q: int| 0 <= q < k && before[i]@ == m[q];
                            assert(0 <= q < k + 1 && res@[i]@ == m[q]);
                        } else {
                            assert(res@[i]@ == m[k as int]);
                        }
                    }
                    if self.wf() {
                        assert forall|i: int, j: int| 0 <= i < j < res@.len() implies (#[trigger] res@[i]).stype@ != (#[trigger] res@[j]).stype@ by {
                            if j == before.len() {
                                assert(res@[i] == before[i]);
                                let q = choose|q: int| 0 <= q < k && before[i]@ == m[q];
                                assert(m[q].stype != m[k as int].stype);
                            } else {
                                assert(res@[i] == before[i] && res@[j] == before[j]);
                            }
                        }
                    }
                }
            }
            k = k + 1;
        }
        assert(m.take(k as int) =~= m);
        res
    }

    /// Index of the sensor of type `st` (or the number of sensors).
    fn find_sensor(&self, st: &str) -> (r: usize)
        ensures
            r == sensor_index(self.model(), st@),
    {
        let ghost m = self.model();
        let mut k: usize = 0;
        while k < self.sensors.len()
            invariant
                k <= self.sensors@.len(),
                m == self.model(),
                sensor_index(m, st@) == sensor_index_from(m, st@, k as int),
            decreases self.sensors@.len() - k,
        {
            assert(m[k as int] == self.sensors@[k as int]@);
            if str_eq(self.sensors[k].stype.as_str(), st) {
                return k;
            }
            k = k + 1;
        }
        k
    }

    /// Applies one file of the directory.
    fn apply_entry(&mut self, e: &HwmonEntry) -> (r: Result<(), HwmonError>)
        ensures
            final(self).base_dir == old(self).base_dir,
            final(self).model() == apply_entry(old(self).model(), *e).0,
            r == (match apply_entry(old(self).model(), *e).1 {
                None => Ok(()),
                Some(x) => Err::<(), HwmonError>(x),
            }),
    {
        let ghost m0 = self.model();
        proof {
            reveal_strlit("name");
            reveal_strlit("uevent");
            reveal_strlit("label");
        }
        if e.is_symlink || e.is_dir || !e.is_file {
            return Ok(());
        }
        let v = chars_of(e.name.as_str());
        let n = v.len();
        assert(v@.subrange(0, n as int) =~= v@);
        if eq_lit(&v, 0, n, "name") || eq_lit(&v, 0, n, "uevent") {
            return Ok(());
        }
        let u = find_char(&v, 0, n, '_');
        if u >= n || u == 0 || u + 1 == n {
            return Ok(());
        }
        assert(v@.subrange(0, u as int) =~= v@.take(u as int));
        assert(v@.subrange(u + 1, n as int) =~= v@.skip(u + 1));
        let sty = e.name.as_str().substring_char(0, u);
        let item = e.name.as_str().substring_char(u + 1, n);
        let mut j = self.find_sensor(sty);
        proof {
            lemma_sensor_index_from(m0, sty@, 0);
        }
        if j == self.sensors.len() {
            let ns = Sensor::new(sty);
            self.sensors.push(ns);
            proof {
                assert(self.model() =~= m0.push(ns@));
                lemma_sensor_index_from(self.model(), sty@, 0);
                assert(sensor_index_from(self.model(), sty@, 0) == j) by {
                    assert forall|q: int| 0 <= q < j implies self.model()[q].stype != sty@ by {
                        assert(self.model()[q] == m0[q]);
                        if m0[q].stype == sty@ {
                            lemma_index_at(m0, sty@, q);
                        }
                    }
                    lemma_index_first(self.model(), sty@, j as int);
                }
            }
        } else {
            proof {
                lemma_sensor_index_from(m0, sty@, 0);
            }
        }
        let ghost m2 = self.model();
        assert(m2 == with_sensor(m0, sty@));
        assert(j == sensor_index(m2, sty@));
        let mut s = self.sensors.remove(j);
        assert(s@ == m2[j as int]);
        let iv = chars_of(item);
        assert(iv@.subrange(0, iv@.len() as int) =~= iv@);
        if eq_lit(&iv, 0, iv.len(), "label") {
            match &e.label_text {
                None => {
                    self.sensors.insert(j, s);
                    assert(self.model() =~= m2);
                    return Err(HwmonError::LabelUnreadable);
                },
                Some(t) => {
                    let tv = chars_of(t.as_str());
                    let (a, b) = trim_range(&tv, 0, tv.len());
                    assert(tv@.subrange(0, tv@.len() as int) =~= tv@);
                    s.label = string_of(t.as_str(), a, b);
                },
            }
        } else if !s.has_item(item) {
            let ghost before = s.items@;
            s.items.push(String::from_str(item));
            assert(s@.items =~= before.map_values(|x: String| x@).push(item@));
        }
        self.sensors.insert(j, s);
        assert(self.model() =~= apply_entry(m0, *e).0);
        Ok(())
    }

    /// Reads the sensors again from the files `entries` of the directory.
    /// Reading stops at a label that could not be read, with an error.
    pub fn refresh(&mut self, entries: &Vec<HwmonEntry>) -> (r: Result<(), HwmonError>)
        ensures
            final(self).base_dir == old(self).base_dir,
            old(self).wf() ==> final(self).wf(),
            final(self).model() == apply_entries(old(self).model(), entries@).0,
            forall|hs: Seq<Seq<HwmonEntry>>|
                old(self).model() == #[trigger] sensors_after(hs) ==> final(self).model() == sensors_after(
                    hs.push(entries@),
                ),
            r == (match apply_entries(old(self).model(), entries@).1 {
                None => Ok(()),
                Some(x) => Err::<(), HwmonError>(x),
            }),
    {
        let ghost m0 = self.model();
        proof {
            if sensors_wf(m0) {
                lemma_apply_entries_wf(m0, entries@);
            }
        }
        proof {
            assert forall|hs: Seq<Seq<HwmonEntry>>| m0 == #[trigger] sensors_after(hs) implies apply_entries(m0, entries@).0
                == sensors_after(hs.push(entries@)) by {
                assert(hs.push(entries@).drop_last() =~= hs);
            }
        }
        let mut k: usize = 0;
        assert(entries@.skip(0) =~= entries@);
        while k < entries.len()
            invariant
                k <= entries@.len(),
                self.base_dir == old(self).base_dir,
                m0 == old(self).model(),
                apply_entries(m0, entries@) == apply_entries(self.model(), entries@.skip(k as int)),
                sensors_wf(m0) ==> sensors_wf(apply_entries(m0, entries@).0),
                forall|hs: Seq<Seq<HwmonEntry>>|
                    m0 == #[trigger] sensors_after(hs) ==> apply_entries(m0, entries@).0 == sensors_after(
                        hs.push(entries@),
                    ),
            decreases entries@.len() - k,
        {
            let ghost before = self.model();
            let ghost rest = entries@.skip(k as int);
            assert(rest[0] == entries@[k as int]);
            assert(rest.skip(1) =~= entries@.skip(k + 1));
            assert(apply_entries(before, rest) == (match apply_entry(before, rest[0]).1 {
                Some(e) => (apply_entry(before, rest[0]).0, Some(e)),
                None => apply_entries(apply_entry(before, rest[0]).0, rest.skip(1)),
            }));
            match self.apply_entry(&entries[k]) {
                Ok(()) => {},
                Err(x) => {
                    return Err(x);
                },
            }
            k = k + 1;
        }
        Ok(())
    }

    /// The hwmon directory `hwmon_dir` (the first `hwmon*` entry found, if
    /// any) with its files `entries`; none when there is no such directory
    /// or it has no `name` file.
    pub fn from(hwmon_dir: Option<String>, has_name_file: bool, entries: &Vec<HwmonEntry>) -> (r:
        Result<Option<Hwmon>, HwmonError>)
        ensures
            hwmon_dir is None || !has_name_file ==> r == Ok::<Option<Hwmon>, HwmonError>(None),
            hwmon_dir is Some && has_name_file ==> match apply_entries(Seq::empty(), entries@).1 {
                Some(x) => r == Err::<Option<Hwmon>, HwmonError>(x),
                None => r matches Ok(Some(h)) && h.base_dir == hwmon_dir->0 && h.model()
                    == apply_entries(Seq::empty(), entries@).0 && h.model() == sensors_after(
                    seq![entries@],
                ) && h.wf(),
            },
    {
        let dir = match hwmon_dir {
            None => {
                return Ok(None);
            },
            Some(d) => d,
        };
        if !has_name_file {
            return Ok(None);
        }
        let mut h = Hwmon { base_dir: dir, sensors: Vec::new() };
        assert(h.model() =~= Seq::<SensorModel>::empty());
        proof {
            let e0 = Seq::<Seq<HwmonEntry>>::empty();
            assert(h.model() == sensors_after(e0));
            assert(e0.push(entries@) =~= seq![entries@]);
        }
        h.refresh(entries)?;
        Ok(Some(h))
    }
}

proof fn lemma_index_at(ss: Seq<SensorModel>, st: Seq<char>, q: int)
    requires
        0 <= q < ss.len(),
        ss[q].stype == st,
    ensures
        sensor_index(ss, st) <= q,
{
    lemma_index_le(ss, st, 0, q);
}

proof fn lemma_index_le(ss: Seq<SensorModel>, st: Seq<char>, i: int, q: int)
    requires
        0 <= i <= q < ss.len(),
        ss[q].stype == st,
    ensures
        sensor_index_from(ss, st, i) <= q,
    decreases q - i,
{
    if ss[i].stype != st {
        lemma_index_le(ss, st, i + 1, q);
    }
}

proof fn lemma_index_first(ss: Seq<SensorModel>, st: Seq<char>, j: int)
    requires
        0 <= j < ss.len(),
        ss[j].stype == st,
        forall|q: int| 0 <= q < j ==> ss[q].stype != st,
    ensures
        sensor_index(ss, st) == j,
{
    lemma_index_first_from(ss, st, 0, j);
}

proof fn lemma_index_first_from(ss: Seq<SensorModel>, st: Seq<char>, i: int, j: int)
    requires
        0 <= i <= j < ss.len(),
        ss[j].stype == st,
        forall|q: int| 0 <= q < j ==> ss[q].stype != st,
    ensures
        sensor_index_from(ss, st, i) == j,
    decreases j - i,
{
    if i < j {
        lemma_index_first_from(ss, st, i + 1, j);
    }
}

} // verus!
