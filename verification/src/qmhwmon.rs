//! A hardware monitoring directory: the texts of its `<variable>_<key>`
//! files as read when it was opened, and its values as read at each call.
use vstd::prelude::*;

use crate::text::{chars_of, find_char, spec_trim, string_of, trim_range};

verus! {

/// Why an hwmon directory could not be read.
#[derive(Debug, Clone, Copy, PartialEq, Eq, Structural)]
pub enum QmHwMonError {
    /// No `hwmon*` entry was found.
    NoHwmonDir,
    /// The directory has no `name` file.
    NoNameFile,
}

/// One file of an hwmon directory as the caller read it.
pub struct QmHwMonFile {
    pub name: String,
    pub is_file: bool,
    pub content: String,
}

/// The text of the file `<variable>_<key>`.
#[derive(Debug)]
pub struct QmHwMonEntry {
    pub variable: String,
    pub key: String,
    pub value: String,
}

/// An hwmon directory and the texts of its files, in the order read.
#[derive(Debug)]
pub struct QmHwMon {
    pub base_path: String,
    pub variable_map: Vec<QmHwMonEntry>,
}

/// The variable and key that a file name gives: the parts before and after
/// its first `'_'`.
pub open spec fn split_once_underscore(n: Seq<char>) -> Option<(Seq<char>, Seq<char>)> {
    let u = crate::text::find_from(n, 0, '_');
    if u >= n.len() {
        None
    } else {
        Some((n.take(u), n.skip(u + 1)))
    }
}

/// The text of the last file read for `variable` and `key`.
pub open spec fn last_text(fs: Seq<QmHwMonFile>, variable: Seq<char>, key: Seq<char>) -> Option<Seq<char>>
    decreases fs.len(),
{
    if fs.len() == 0 {
        None
    } else {
        let f = fs.last();
        if f.is_file && split_once_underscore(f.name@) == Some((variable, key)) {
            Some(f.content@)
        } else {
            last_text(fs.drop_last(), variable, key)
        }
    }
}

/// The value of the last entry for `variable` and `key`.
pub open spec fn last_value(es: Seq<QmHwMonEntry>, variable: Seq<char>, key: Seq<char>) -> Option<Seq<char>>
    decreases es.len(),
{
    if es.len() == 0 {
        None
    } else if es.last().variable@ == variable && es.last().key@ == key {
        Some(es.last().value@)
    } else {
        last_value(es.drop_last(), variable, key)
    }
}

/// `name` appended to the path `base`, with a `/` between them unless `base`
/// is empty or already ends with one.
pub open spec fn spec_path_join(base: Seq<char>, name: Seq<char>) -> Seq<char> {
    if base.len() == 0 || base.last() == '/' {
        base + name
    } else {
        base + seq!['/'] + name
    }
}

/// The text of a file read as a value: without the white space around it.
fn trimmed(content: Option<String>) -> (r: Option<String>)
    ensures
        match content {
            None => r is None,
            Some(t) => r matches Some(s) && s@ == spec_trim(t@),
        },
{
    match content {
        None => None,
        Some(t) => {
            let v = chars_of(t.as_str());
            let (a, b) = trim_range(&v, 0, v.len());
            assert(v@.subrange(0, v@.len() as int) =~= v@);
            Some(string_of(t.as_str(), a, b))
        },
    }
}

impl QmHwMon {
    /// The hwmon directory `hwmon_dir` (the first `hwmon*` entry of the
    /// device's `hwmon` directory) with its files `files`.
    pub fn new(hwmon_dir: Option<String>, has_name_file: bool, files: &Vec<QmHwMonFile>) -> (r: Result<QmHwMon, QmHwMonError>)
        ensures
            hwmon_dir is None ==> r == Err::<QmHwMon, QmHwMonError>(QmHwMonError::NoHwmonDir),
            hwmon_dir is Some && !has_name_file ==> r == Err::<QmHwMon, QmHwMonError>(QmHwMonError::NoNameFile),
            hwmon_dir is Some && has_name_file ==> (r matches Ok(h) && h.base_path == hwmon_dir->0 && forall|v: Seq<char>, k: Seq<char>|
                #[trigger] last_value(h.variable_map@, v, k) == last_text(files@, v, k)),
    {
        let dir = match hwmon_dir {
            None => {
                return Err(QmHwMonError::NoHwmonDir);
            },
            Some(d) => d,
        };
        if !has_name_file {
            return Err(QmHwMonError::NoNameFile);
        }
        let mut map: Vec<QmHwMonEntry> = Vec::new();
        let mut i: usize = 0;
        while i < files.len()
            invariant
                i <= files@.len(),
                forall|v: Seq<char>, k: Seq<char>| #[trigger] last_value(map@, v, k) == last_text(files@.take(i as int), v, k),
            decreases files@.len() - i,
        {
            let f = &files[i];
            proof {
                assert(files@.take(i + 1).drop_last() =~= files@.take(i as int));
                assert(files@.take(i + 1).last() == *f);
            }
            let ghost before = map@;
            let ghost fs1 = files@.take(i + 1);
            let mut pushed = false;
            if f.is_file {
                let v = chars_of(f.name.as_str());
                let n = v.len();
                let u = find_char(&v, 0, n, '_');
                assert(v@.subrange(0, n as int) =~= v@);
                if u < n {
                    assert(v@.subrange(0, u as int) =~= v@.take(u as int));
                    assert(v@.subrange(u + 1, n as int) =~= v@.skip(u + 1));
                    let e = QmHwMonEntry {
                        variable: string_of(f.name.as_str(), 0, u),
                        key: string_of(f.name.as_str(), u + 1, n),
                        value: f.content.clone(),
                    };
                    map.push(e);
                    pushed = true;
                    proof {
                        assert(map@.drop_last() =~= before);
                        assert(split_once_underscore(f.name@) == Some((e.variable@, e.key@)));
                        assert forall|vv: Seq<char>, kk: Seq<char>| #[trigger] last_value(map@, vv, kk) == last_text(fs1, vv, kk) by {
                            assert(map@.last() == e);
                            assert(fs1.last() == *f);
                            assert(fs1.drop_last() =~= files@.take(i as int));
                            assert(last_value(before, vv, kk) == last_text(files@.take(i as int), vv, kk));
                            if !(e.variable@ == vv && e.key@ == kk) {
                                assert(last_value(map@, vv, kk) == last_value(before, vv, kk));
                                assert(last_text(fs1, vv, kk) == last_text(files@.take(i as int), vv, kk));
                            }
                        }
                    }
                } else {
                    assert(split_once_underscore(f.name@) is None);
                }
            }
            proof {
                if !pushed {
                    assert(map@ == before);
                    assert forall|vv: Seq<char>, kk: Seq<char>| #[trigger] last_value(map@, vv, kk) == last_text(fs1, vv, kk) by {
                        assert(last_text(fs1, vv, kk) == last_text(files@.take(i as int), vv, kk));
                    }
                }
            }
            i = i + 1;
        }
        assert(files@.take(i as int) =~= files@);
        Ok(QmHwMon { base_path: dir, variable_map: map })
    }

    /// The path of the file `file_name` of the directory, as `Path::join`
    /// forms it.
    pub fn file_path(&self, file_name: &str) -> (r: String)
        ensures
            r@ == spec_path_join(self.base_path@, file_name@),
    {
        let v = chars_of(self.base_path.as_str());
        let mut r = self.base_path.clone();
        if v.len() > 0 && v[v.len() - 1] != '/' {
            r.append("/");
            proof {
                reveal_strlit("/");
            }
        }
        r.append(file_name);
        r
    }

    /// The text of `power1_max`, trimmed: `content` is what reading
    /// `self.file_path("power1_max")` gives at the time of the call (`None` when
    /// the file cannot be read as text).
    pub fn power1_max(&self, content: Option<String>) -> (r: Option<String>)
        ensures
            match content {
                None => r is None,
                Some(t) => r matches Some(s) && s@ == spec_trim(t@),
            },
    {
        trimmed(content)
    }

    /// The text of `power1_rated_max`, trimmed: `content` is what reading
    /// `self.file_path("power1_rated_max")` gives at the time of the call (`None` when
    /// the file cannot be read as text).
    pub fn power1_rated_max(&self, content: Option<String>) -> (r: Option<String>)
        ensures
            match content {
                None => r is None,
                Some(t) => r matches Some(s) && s@ == spec_trim(t@),
            },
    {
        trimmed(content)
    }

    /// The text of `energy1_input`, trimmed: `content` is what reading
    /// `self.file_path("energy1_input")` gives at the time of the call (`None` when
    /// the file cannot be read as text).
    pub fn energy1_input(&self, content: Option<String>) -> (r: Option<String>)
        ensures
            match content {
                None => r is None,
                Some(t) => r matches Some(s) && s@ == spec_trim(t@),
            },
    {
        trimmed(content)
    }

    /// The text of `power1_max_interval`, trimmed: `content` is what reading
    /// `self.file_path("power1_max_interval")` gives at the time of the call (`None` when
    /// the file cannot be read as text).
    pub fn power1_max_interval(&self, content: Option<String>) -> (r: Option<String>)
        ensures
            match content {
                None => r is None,
                Some(t) => r matches Some(s) && s@ == spec_trim(t@),
            },
    {
        trimmed(content)
    }

    /// The text of `power2_max`, trimmed: `content` is what reading
    /// `self.file_path("power2_max")` gives at the time of the call (`None` when
    /// the file cannot be read as text).
    pub fn power2_max(&self, content: Option<String>) -> (r: Option<String>)
        ensures
            match content {
                None => r is None,
                Some(t) => r matches Some(s) && s@ == spec_trim(t@),
            },
    {
        trimmed(content)
    }

    /// The text of `power2_rated_max`, trimmed: `content` is what reading
    /// `self.file_path("power2_rated_max")` gives at the time of the call (`None` when
    /// the file cannot be read as text).
    pub fn power2_rated_max(&self, content: Option<String>) -> (r: Option<String>)
        ensures
            match content {
                None => r is None,
                Some(t) => r matches Some(s) && s@ == spec_trim(t@),
            },
    {
        trimmed(content)
    }

    /// The text of `power2_crit`, trimmed: `content` is what reading
    /// `self.file_path("power2_crit")` gives at the time of the call (`None` when
    /// the file cannot be read as text).
    pub fn power2_crit(&self, content: Option<String>) -> (r: Option<String>)
        ensures
            match content {
                None => r is None,
                Some(t) => r matches Some(s) && s@ == spec_trim(t@),
            },
    {
        trimmed(content)
    }

    /// The text of `curr2_crit`, trimmed: `content` is what reading
    /// `self.file_path("curr2_crit")` gives at the time of the call (`None` when
    /// the file cannot be read as text).
    pub fn curr2_crit(&self, content: Option<String>) -> (r: Option<String>)
        ensures
            match content {
                None => r is None,
                Some(t) => r matches Some(s) && s@ == spec_trim(t@),
            },
    {
        trimmed(content)
    }

    /// The text of `energy2_input`, trimmed: `content` is what reading
    /// `self.file_path("energy2_input")` gives at the time of the call (`None` when
    /// the file cannot be read as text).
    pub fn energy2_input(&self, content: Option<String>) -> (r: Option<String>)
        ensures
            match content {
                None => r is None,
                Some(t) => r matches Some(s) && s@ == spec_trim(t@),
            },
    {
        trimmed(content)
    }

    /// The text of `power2_max_interval`, trimmed: `content` is what reading
    /// `self.file_path("power2_max_interval")` gives at the time of the call (`None` when
    /// the file cannot be read as text).
    pub fn power2_max_interval(&self, content: Option<String>) -> (r: Option<String>)
        ensures
            match content {
                None => r is None,
                Some(t) => r matches Some(s) && s@ == spec_trim(t@),
            },
    {
        trimmed(content)
    }

    /// The text of `in1_input`, trimmed: `content` is what reading
    /// `self.file_path("in1_input")` gives at the time of the call (`None` when
    /// the file cannot be read as text).
    pub fn in1_input(&self, content: Option<String>) -> (r: Option<String>)
        ensures
            match content {
                None => r is None,
                Some(t) => r matches Some(s) && s@ == spec_trim(t@),
            },
    {
        trimmed(content)
    }
}

} // verus!
