//! A catalogue of musical scales, read from YAML records and searched by
//! name and by properties.
use vstd::prelude::*;
use vstd::string::StringExecFns;

use crate::time::decimal_text;
use crate::util::{push_char, push_decimal};

verus! {

#[verifier::external_type_specification]
#[verifier::external_body]
pub struct ExYamlValue(serde_yaml::Value);

/// What `str::to_lowercase` makes of a string.
pub uninterp spec fn lower_of(s: Seq<char>) -> Seq<char>;

/// Relies on `str::to_lowercase`: the lowercase form of `s`, which depends
/// on the characters of `s` alone.
#[verifier::external_body]
fn lowercase(s: &str) -> (r: String)
    ensures
        r@ == lower_of(s@),
{
    s.to_lowercase()
}

/// Relies on `serde_yaml::from_str`: reads a YAML sequence; `None` when the
/// text is not one.
#[verifier::external_body]
fn parse_yaml_sequence(text: &str) -> (r: Option<Vec<serde_yaml::Value>>) {
    serde_yaml::from_str::<Vec<serde_yaml::Value>>(text).ok()
}

/// Relies on `serde_yaml::Value::get`: the value under a key of a mapping.
#[verifier::external_body]
fn yaml_get<'a>(v: &'a serde_yaml::Value, key: &str) -> (r: Option<&'a serde_yaml::Value>) {
    v.get(key)
}

/// Relies on `serde_yaml::Value::as_str`: the text of a string value.
#[verifier::external_body]
fn yaml_as_str<'a>(v: &'a serde_yaml::Value) -> (r: Option<&'a str>) {
    v.as_str()
}

/// Relies on `serde_yaml::Value::as_sequence`: the items of a sequence value.
#[verifier::external_body]
fn yaml_as_sequence<'a>(v: &'a serde_yaml::Value) -> (r: Option<&'a Vec<serde_yaml::Value>>) {
    v.as_sequence()
}

/// Relies on `serde_yaml::Value::as_u64`: the value of a non-negative
/// integer.
#[verifier::external_body]
fn yaml_as_u64(v: &serde_yaml::Value) -> (r: Option<u64>) {
    v.as_u64()
}

/// A musical scale and what is known of it.
#[derive(Debug, Clone, PartialEq, Eq)]
pub struct Scale {
    /// The name of the scale (e.g. "Major", "Dorian").
    pub name: String,
    /// The intervals of the scale in semitones, if defined.
    pub intervals: Option<Vec<u8>>,
    /// Ascending intervals, where they differ from the descending ones.
    pub intervals_ascending: Option<Vec<u8>>,
    /// Descending intervals, where they differ from the ascending ones.
    pub intervals_descending: Option<Vec<u8>>,
    /// The notes of the scale as semitone offsets from the root, if defined.
    pub notes: Option<Vec<u8>>,
    /// Ascending notes, where they differ from the descending ones.
    pub notes_ascending: Option<Vec<u8>>,
    /// Descending notes, where they differ from the ascending ones.
    pub notes_descending: Option<Vec<u8>>,
    /// The origin or cultural association of the scale, if known.
    pub origin: Option<String>,
}

/// A scale as plain values.
pub struct ScaleView {
    pub name: Seq<char>,
    pub intervals: Option<Seq<u8>>,
    pub intervals_ascending: Option<Seq<u8>>,
    pub intervals_descending: Option<Seq<u8>>,
    pub notes: Option<Seq<u8>>,
    pub notes_ascending: Option<Seq<u8>>,
    pub notes_descending: Option<Seq<u8>>,
    pub origin: Option<Seq<char>>,
}

pub open spec fn bytes_view(o: Option<Vec<u8>>) -> Option<Seq<u8>> {
    match o {
        Some(v) => Some(v@),
        None => None,
    }
}

pub open spec fn text_view(o: Option<String>) -> Option<Seq<char>> {
    match o {
        Some(s) => Some(s@),
        None => None,
    }
}

impl View for Scale {
    type V = ScaleView;

    open spec fn view(&self) -> ScaleView {
        ScaleView {
            name: self.name@,
            intervals: bytes_view(self.intervals),
            intervals_ascending: bytes_view(self.intervals_ascending),
            intervals_descending: bytes_view(self.intervals_descending),
            notes: bytes_view(self.notes),
            notes_ascending: bytes_view(self.notes_ascending),
            notes_descending: bytes_view(self.notes_descending),
            origin: text_view(self.origin),
        }
    }
}

fn copy_bytes(o: &Option<Vec<u8>>) -> (r: Option<Vec<u8>>)
    ensures
        bytes_view(r) == bytes_view(*o),
{
    match o {
        Some(v) => {
            let mut out: Vec<u8> = Vec::new();
            let mut i: usize = 0;
            while i < v.len()
                invariant
                    i <= v@.len(),
                    out@ == v@.take(i as int),
                decreases v@.len() - i,
            {
                out.push(v[i]);
                assert(v@.take(i + 1) =~= v@.take(i as int).push(v@[i as int]));
                i = i + 1;
            }
            assert(v@.take(v@.len() as int) =~= v@);
            Some(out)
        },
        None => None,
    }
}

impl Scale {
    /// A copy of the scale.
    pub fn duplicate(&self) -> (r: Scale)
        ensures
            r@ == self@,
    {
        Scale {
            name: self.name.clone(),
            intervals: copy_bytes(&self.intervals),
            intervals_ascending: copy_bytes(&self.intervals_ascending),
            intervals_descending: copy_bytes(&self.intervals_descending),
            notes: copy_bytes(&self.notes),
            notes_ascending: copy_bytes(&self.notes_ascending),
            notes_descending: copy_bytes(&self.notes_descending),
            origin: match &self.origin {
                Some(o) => Some(o.clone()),
                None => None,
            },
        }
    }
}

/// The errors of scale lookups.
#[derive(Debug, Clone, PartialEq, Eq)]
pub enum ScaleOmnibusError {
    /// No scale has the given name.
    ScaleNotFoundError(String),
    /// The scale data is not a YAML sequence.
    InvalidYaml,
}

impl ScaleOmnibusError {
    /// The human-readable message of this error.
    pub fn to_string(&self) -> (r: String)
        ensures
            r@ == match self {
                ScaleOmnibusError::ScaleNotFoundError(name) => "Scale not found: "@ + name@,
                ScaleOmnibusError::InvalidYaml => "Invalid YAML format"@,
            },
    {
        match self {
            ScaleOmnibusError::ScaleNotFoundError(name) => {
                "Scale not found: ".to_string().concat(name.as_str())
            },
            ScaleOmnibusError::InvalidYaml => "Invalid YAML format".to_string(),
        }
    }
}

/// `" (n)"`, the suffix that tells apart scales of the same name.
pub open spec fn suffix_text(n: nat) -> Seq<char> {
    " ("@ + decimal_text(n) + ")"@
}

/// The index of the entry with key `k`.
pub open spec fn key_index<V>(s: Seq<(Seq<char>, V)>, k: Seq<char>) -> int {
    choose|i: int| 0 <= i < s.len() && s[i].0 == k
}

pub open spec fn has_key<V>(s: Seq<(Seq<char>, V)>, k: Seq<char>) -> bool {
    exists|i: int| 0 <= i < s.len() && #[trigger] s[i].0 == k
}

pub open spec fn unique_keys<V>(s: Seq<(Seq<char>, V)>) -> bool {
    forall|i: int, j: int| 0 <= i < j < s.len() ==> s[i].0 != s[j].0
}

/// `s` with the entry of key `k` set to `v`, added at the end if `k` is new.
pub open spec fn upsert<V>(s: Seq<(Seq<char>, V)>, k: Seq<char>, v: V) -> Seq<(Seq<char>, V)> {
    if has_key(s, k) {
        s.update(key_index(s, k), (k, v))
    } else {
        s.push((k, v))
    }
}

/// The scales of `s` at the positions where `picks` holds, in order.
pub open spec fn select(s: Seq<ScaleView>, picks: Seq<bool>) -> Seq<ScaleView>
    decreases s.len(),
{
    if s.len() == 0 {
        s
    } else {
        let before = select(s.drop_last(), picks.drop_last());
        if picks.last() {
            before.push(s.last())
        } else {
            before
        }
    }
}

/// Whether a scale has more than `n` intervals.
pub open spec fn more_intervals_than(v: ScaleView, n: usize) -> bool {
    v.intervals matches Some(iv) && iv.len() > n
}

/// Whether a scale's origin matches `origin` ignoring case.
pub open spec fn from_origin(v: ScaleView, origin: Seq<char>) -> bool {
    v.origin matches Some(o) && lower_of(o) == lower_of(origin)
}

/// Whether a scale has ascending intervals of its own.
pub open spec fn has_up_down_intervals(v: ScaleView) -> bool {
    v.intervals_ascending is Some
}

/// The views of a vector of scales.
pub open spec fn scale_views(s: Seq<Scale>) -> Seq<ScaleView> {
    s.map_values(|x: Scale| x@)
}

/// A catalogue of scales keyed by lowercase name.
///
/// Scales whose names differ only in case get the suffix " (1)", " (2)",
/// ... on their name and key, in the order they were added.
pub struct ScaleCatalog {
    entries: Vec<(String, Scale)>,
    name_counts: Vec<(String, usize)>,
}

pub open spec fn entry_views(s: Seq<(String, Scale)>) -> Seq<(Seq<char>, ScaleView)> {
    s.map_values(|e: (String, Scale)| (e.0@, e.1@))
}

pub open spec fn count_views(s: Seq<(String, usize)>) -> Seq<(Seq<char>, nat)> {
    s.map_values(|e: (String, usize)| (e.0@, e.1 as nat))
}

/// Where `add_scale` files a scale named `name` (lowercased `key`), given
/// how often each lowercase name has been seen: the key and the name it
/// files it under, and the counts after.
pub open spec fn filing(counts: Seq<(Seq<char>, nat)>, name: Seq<char>) -> (
    Seq<char>,
    Seq<char>,
    Seq<(Seq<char>, nat)>,
) {
    let key = lower_of(name);
    if has_key(counts, key) {
        let n = counts[key_index(counts, key)].1 + 1;
        (key + suffix_text(n), name + suffix_text(n), counts.update(key_index(counts, key), (key, n)))
    } else {
        (key, name, counts.push((key, 0)))
    }
}

/// The scales and name counts after filing `scales` in order with
/// `add_scale`, starting from an empty catalogue.
pub open spec fn filed(scales: Seq<ScaleView>) -> (
    Seq<(Seq<char>, ScaleView)>,
    Seq<(Seq<char>, nat)>,
)
    decreases scales.len(),
{
    if scales.len() == 0 {
        (seq![], seq![])
    } else {
        let before = filed(scales.drop_last());
        let (key, name, counts) = filing(before.1, scales.last().name);
        (upsert(before.0, key, ScaleView { name, ..scales.last() }), counts)
    }
}

impl ScaleCatalog {
    /// The keys with their scales, in the order the keys were first filed.
    pub closed spec fn spec_raw(&self) -> Seq<(String, Scale)> {
        self.entries@
    }

    /// The keys with their scales as plain values.
    pub open spec fn spec_entries(&self) -> Seq<(Seq<char>, ScaleView)> {
        entry_views(self.spec_raw())
    }

    /// The scales as plain values, in the order of their keys.
    pub open spec fn spec_scales(&self) -> Seq<ScaleView> {
        self.spec_entries().map_values(|e: (Seq<char>, ScaleView)| e.1)
    }

    /// How often each lowercase name was seen after its first scale.
    pub closed spec fn spec_counts(&self) -> Seq<(Seq<char>, nat)> {
        count_views(self.name_counts@)
    }

    pub open spec fn wf(&self) -> bool {
        unique_keys(self.spec_entries()) && unique_keys(self.spec_counts())
    }

    /// An empty catalogue.
    pub fn new() -> (r: ScaleCatalog)
        ensures
            r.wf(),
            r.spec_entries().len() == 0,
            r.spec_counts().len() == 0,
    {
        let r = ScaleCatalog { entries: Vec::new(), name_counts: Vec::new() };
        assert(r.spec_entries() =~= Seq::<(Seq<char>, ScaleView)>::empty());
        assert(r.spec_counts() =~= Seq::<(Seq<char>, nat)>::empty());
        r
    }

    fn find_count(&self, key: &String) -> (r: Option<usize>)
        requires
            self.wf(),
        ensures
            match r {
                Some(i) => i < self.spec_counts().len() && self.spec_counts()[i as int].0 == key@
                    && key_index(self.spec_counts(), key@) == i,
                None => !has_key(self.spec_counts(), key@),
            },
    {
        let ghost c = self.spec_counts();
        let mut i: usize = 0;
        while i < self.name_counts.len()
            invariant
                c == count_views(self.name_counts@),
                c == self.spec_counts(),
                self.wf(),
                i <= c.len(),
                forall|j: int| 0 <= j < i ==> c[j].0 != key@,
            decreases c.len() - i,
        {
            if self.name_counts[i].0 == *key {
                proof {
                    assert(0 <= i < c.len() && c[i as int].0 == key@);
                    assert(exists|j: int| 0 <= j < c.len() && c[j].0 == key@);
                    let k = key_index(c, key@);
                    assert(unique_keys(c));
                    if k < i {
                        assert(c[k].0 != c[i as int].0);
                    } else if k > i {
                        assert(c[i as int].0 != c[k].0);
                    }
                }
                return Some(i);
            }
            i = i + 1;
        }
        None
    }

    fn find_entry(&self, key: &String) -> (r: Option<usize>)
        requires
            self.wf(),
        ensures
            match r {
                Some(i) => i < self.spec_entries().len() && self.spec_entries()[i as int].0 == key@
                    && key_index(self.spec_entries(), key@) == i,
                None => !has_key(self.spec_entries(), key@),
            },
    {
        let ghost c = self.spec_entries();
        let mut i: usize = 0;
        while i < self.entries.len()
            invariant
                c == entry_views(self.entries@),
                c == self.spec_entries(),
                self.wf(),
                i <= c.len(),
                forall|j: int| 0 <= j < i ==> c[j].0 != key@,
            decreases c.len() - i,
        {
            if self.entries[i].0 == *key {
                proof {
                    assert(0 <= i < c.len() && c[i as int].0 == key@);
                    assert(exists|j: int| 0 <= j < c.len() && c[j].0 == key@);
                    let k = key_index(c, key@);
                    assert(unique_keys(c));
                    if k < i {
                        assert(c[k].0 != c[i as int].0);
                    } else if k > i {
                        assert(c[i as int].0 != c[k].0);
                    }
                }
                return Some(i);
            }
            i = i + 1;
        }
        None
    }

    /// Files a scale under its lowercase name. A scale whose lowercase name
    /// was seen before gets the suffix " (n)" on its name and key, n
    /// counting the earlier ones after the first; a scale already filed under
    /// the resulting key is replaced.
    pub fn add_scale(&mut self, scale: Scale)
        requires
            old(self).wf(),
            forall|i: int|
                0 <= i < old(self).spec_counts().len() ==> #[trigger] old(self).spec_counts()[i].1
                    < usize::MAX,
        ensures
            final(self).wf(),
            ({
                let (key, name, counts) = filing(old(self).spec_counts(), scale.name@);
                &&& final(self).spec_counts() == counts
                &&& final(self).spec_entries() == upsert(
                    old(self).spec_entries(),
                    key,
                    ScaleView { name, ..scale@ },
                )
            }),
    {
        let ghost old_counts = self.spec_counts();
        let ghost old_entries = self.spec_entries();
        let key = lowercase(scale.name.as_str());
        let mut scale = scale;
        let ghost given = scale@;
        let mut unique_key = key.clone();
        match self.find_count(&key) {
            Some(i) => {
                proof {
                    assert(old_counts[i as int].1 < usize::MAX);
                }
                let n = self.name_counts[i].1 + 1;
                let counted = self.name_counts[i].0.clone();
                self.name_counts[i] = (counted, n);
                let mut suffix = " (".to_string();
                push_decimal(&mut suffix, n);
                push_char(&mut suffix, ')');
                proof {
                    reveal_strlit(")");
                    assert(")"@ =~= seq![')']);
                }
                assert(suffix@ =~= suffix_text(n as nat));
                scale.name.append(suffix.as_str());
                unique_key.append(suffix.as_str());
                proof {
                    assert(self.spec_counts() =~= old_counts.update(i as int, (key@, n as nat)));
                    assert forall|a: int, b: int|
                        0 <= a < b < self.spec_counts().len() implies self.spec_counts()[a].0
                        != self.spec_counts()[b].0 by {
                        assert(old_counts[a].0 != old_counts[b].0);
                    }
                }
            },
            None => {
                self.name_counts.push((key.clone(), 0));
                proof {
                    assert(self.spec_counts() =~= old_counts.push((key@, 0)));
                    assert forall|a: int, b: int|
                        0 <= a < b < self.spec_counts().len() implies self.spec_counts()[a].0
                        != self.spec_counts()[b].0 by {
                        if b < old_counts.len() {
                            assert(old_counts[a].0 != old_counts[b].0);
                        } else {
                            assert(old_counts[a].0 != key@);
                        }
                    }
                }
            },
        }
        assert(scale@ == (ScaleView { name: scale.name@, ..given }));
        let ghost v = scale@;
        match self.find_entry(&unique_key) {
            Some(j) => {
                self.entries[j] = (unique_key, scale);
                proof {
                    assert(self.spec_entries() =~= old_entries.update(j as int, (old_entries[j as int].0, v)));
                    assert forall|a: int, b: int|
                        0 <= a < b < self.spec_entries().len() implies self.spec_entries()[a].0
                        != self.spec_entries()[b].0 by {
                        assert(old_entries[a].0 != old_entries[b].0);
                    }
                }
            },
            None => {
                let ghost k = unique_key@;
                self.entries.push((unique_key, scale));
                proof {
                    assert(self.spec_entries() =~= old_entries.push((k, v)));
                    assert forall|a: int, b: int|
                        0 <= a < b < self.spec_entries().len() implies self.spec_entries()[a].0
                        != self.spec_entries()[b].0 by {
                        if b < old_entries.len() {
                            assert(old_entries[a].0 != old_entries[b].0);
                        } else {
                            assert(old_entries[a].0 != k);
                        }
                    }
                }
            },
        }
    }

    /// Files the scales one after another with `add_scale`, starting from
    /// an empty catalogue.
    pub fn from_scales(scales: Vec<Scale>) -> (r: ScaleCatalog)
        ensures
            r.wf(),
            r.spec_entries() == filed(scale_views(scales@)).0,
            r.spec_counts() == filed(scale_views(scales@)).1,
    {
        let ghost views = scale_views(scales@);
        let mut catalog = ScaleCatalog::new();
        assert(catalog.spec_entries() =~= filed(views.take(0)).0);
        assert(catalog.spec_counts() =~= filed(views.take(0)).1);
        let mut i: usize = 0;
        while i < scales.len()
            invariant
                i <= scales@.len(),
                views == scale_views(scales@),
                catalog.wf(),
                catalog.spec_entries() == filed(views.take(i as int)).0,
                catalog.spec_counts() == filed(views.take(i as int)).1,
                forall|j: int|
                    0 <= j < catalog.spec_counts().len() ==> #[trigger] catalog.spec_counts()[j].1
                        <= i,
            decreases scales@.len() - i,
        {
            let scale = scales[i].duplicate();
            let ghost before = catalog.spec_counts();
            proof {
                assert(views.take(i + 1).drop_last() =~= views.take(i as int));
                assert(views.take(i + 1).last() == scale@);
                assert forall|j: int| 0 <= j < before.len() implies #[trigger] before[j].1
                    < usize::MAX by {
                    assert(before[j].1 <= i);
                }
            }
            catalog.add_scale(scale);
            proof {
                let after = catalog.spec_counts();
                assert forall|j: int| 0 <= j < after.len() implies #[trigger] after[j].1 <= i + 1 by {
                    if j < before.len() {
                        assert(before[j].1 <= i);
                    }
                }
            }
            i = i + 1;
        }
        assert(views.take(scales@.len() as int) =~= views);
        catalog
    }

    /// Reads a catalogue from YAML: a sequence of mappings, each with a
    /// `name` and optionally `intervals`, `intervals_ascending`,
    /// `intervals_descending`, `notes`, `notes_ascending`,
    /// `notes_descending` (sequences of integers) and `origin`. Items without
    /// a name are skipped; the others become scales that `from_scales` files
    /// in order.
    pub fn from_yaml(text: &str) -> (r: Result<ScaleCatalog, ScaleOmnibusError>)
        ensures
            r matches Ok(c) ==> c.wf() && exists|records: Seq<ScaleView>|
                {
                    &&& c.spec_entries() == (#[trigger] filed(records)).0
                    &&& c.spec_counts() == filed(records).1
                },
            r matches Err(e) ==> e == ScaleOmnibusError::InvalidYaml,
    {
        let items = match parse_yaml_sequence(text) {
            Some(items) => items,
            None => {
                return Err(ScaleOmnibusError::InvalidYaml);
            },
        };
        let mut records: Vec<Scale> = Vec::new();
        let mut i: usize = 0;
        while i < items.len()
            invariant
                i <= items@.len(),
            decreases items@.len() - i,
        {
            let item = &items[i];
            if let Some(name_value) = yaml_get(item, "name") {
                if let Some(name) = yaml_as_str(name_value) {
                    records.push(
                        Scale {
                            name: name.to_string(),
                            intervals: read_bytes(item, "intervals"),
                            intervals_ascending: read_bytes(item, "intervals_ascending"),
                            intervals_descending: read_bytes(item, "intervals_descending"),
                            notes: read_bytes(item, "notes"),
                            notes_ascending: read_bytes(item, "notes_ascending"),
                            notes_descending: read_bytes(item, "notes_descending"),
                            origin: match yaml_get(item, "origin") {
                                Some(o) => match yaml_as_str(o) {
                                    Some(o) => Some(o.to_string()),
                                    None => None,
                                },
                                None => None,
                            },
                        },
                    );
                }
            }
            i = i + 1;
        }
        let ghost views = scale_views(records@);
        let catalog = ScaleCatalog::from_scales(records);
        assert(catalog.spec_entries() == filed(views).0);
        Ok(catalog)
    }
}

/// The integers of the sequence under `key` of a YAML mapping, each cut to
/// its low eight bits; `None` when there is no such sequence.
fn read_bytes(item: &serde_yaml::Value, key: &str) -> (r: Option<Vec<u8>>) {
    let value = match yaml_get(item, key) {
        Some(v) => v,
        None => {
            return None;
        },
    };
    let items = match yaml_as_sequence(value) {
        Some(items) => items,
        None => {
            return None;
        },
    };
    let mut out: Vec<u8> = Vec::new();
    let mut i: usize = 0;
    while i < items.len()
        invariant
            i <= items@.len(),
        decreases items@.len() - i,
    {
        if let Some(n) = yaml_as_u64(&items[i]) {
            out.push(#[verifier::truncate] (n as u8));
        }
        i = i + 1;
    }
    Some(out)
}

/// Retrieves the scale filed under the lowercase form of `name`.
pub fn get_scale<'a>(catalog: &'a ScaleCatalog, name: &str) -> (r: Result<&'a Scale, ScaleOmnibusError>)
    requires
        catalog.wf(),
    ensures
        r is Ok <==> has_key(catalog.spec_entries(), lower_of(name@)),
        r matches Ok(s) ==> s@ == catalog.spec_entries()[key_index(
            catalog.spec_entries(),
            lower_of(name@),
        )].1,
        r matches Err(e) ==> e matches ScaleOmnibusError::ScaleNotFoundError(n) && n@ == name@,
{
    let key = lowercase(name);
    match catalog.find_entry(&key) {
        Some(i) => Ok(&catalog.entries[i].1),
        None => Err(ScaleOmnibusError::ScaleNotFoundError(name.to_string())),
    }
}

/// The keys of all scales: their lowercase names.
pub fn get_scale_names(catalog: &ScaleCatalog) -> (r: Vec<String>)
    ensures
        r@.len() == catalog.spec_entries().len(),
        forall|i: int| 0 <= i < r@.len() ==> #[trigger] r@[i]@ == catalog.spec_entries()[i].0,
{
    let mut names: Vec<String> = Vec::new();
    let mut i: usize = 0;
    while i < catalog.entries.len()
        invariant
            i <= catalog.spec_entries().len(),
            names@.len() == i,
            forall|j: int| 0 <= j < i ==> #[trigger] names@[j]@ == catalog.spec_entries()[j].0,
        decreases catalog.spec_entries().len() - i,
    {
        names.push(catalog.entries[i].0.clone());
        i = i + 1;
    }
    names
}

/// Copies of the scales that `filter` accepts, in catalogue order.
pub fn filter_scales<F: Fn(&Scale) -> bool>(catalog: &ScaleCatalog, filter: F) -> (r: Result<
    Vec<Scale>,
    ScaleOmnibusError,
>)
    requires
        forall|s: &Scale| #[trigger] filter.requires((s,)),
    ensures
        r matches Ok(v) && exists|picks: Seq<bool>|
            {
                &&& picks.len() == catalog.spec_raw().len()
                &&& forall|i: int|
                    0 <= i < picks.len() ==> filter.ensures(
                        (&catalog.spec_raw()[i].1,),
                        #[trigger] picks[i],
                    )
                &&& scale_views(v@) == select(catalog.spec_scales(), picks)
            },
{
    let ghost raw = catalog.spec_raw();
    let ghost views = catalog.spec_scales();
    let mut out: Vec<Scale> = Vec::new();
    let ghost mut picks: Seq<bool> = Seq::empty();
    let mut i: usize = 0;
    while i < catalog.entries.len()
        invariant
            raw == catalog.spec_raw(),
            views == catalog.spec_scales(),
            i <= raw.len(),
            picks.len() == i,
            forall|s: &Scale| #[trigger] filter.requires((s,)),
            forall|j: int| 0 <= j < i ==> filter.ensures((&raw[j].1,), #[trigger] picks[j]),
            scale_views(out@) == select(views.take(i as int), picks),
        decreases raw.len() - i,
    {
        let scale = &catalog.entries[i].1;
        let keep = filter(scale);
        let ghost before = out@;
        if keep {
            out.push(scale.duplicate());
        }
        proof {
            let next_picks = picks.push(keep);
            assert(views.take(i + 1).drop_last() =~= views.take(i as int));
            assert(next_picks.drop_last() =~= picks);
            assert(views[i as int] == raw[i as int].1@);
            if keep {
                assert(scale_views(out@) =~= scale_views(before).push(views[i as int]));
            } else {
                assert(scale_views(out@) =~= scale_views(before));
            }
            picks = next_picks;
        }
        i = i + 1;
    }
    assert(views.take(raw.len() as int) =~= views);
    Ok(out)
}

/// When a filter decides by a predicate of the scale's plain values, the
/// scales it keeps are those the predicate accepts.
proof fn lemma_picks_follow<F: Fn(&Scale) -> bool>(
    catalog: &ScaleCatalog,
    v: Seq<Scale>,
    p: spec_fn(ScaleView) -> bool,
    filter: F,
)
    requires
        forall|s: &Scale, b: bool| filter.ensures((s,), b) ==> b == p(s@),
        exists|picks: Seq<bool>|
            {
                &&& picks.len() == catalog.spec_raw().len()
                &&& forall|i: int|
                    0 <= i < picks.len() ==> filter.ensures(
                        (&catalog.spec_raw()[i].1,),
                        #[trigger] picks[i],
                    )
                &&& scale_views(v) == select(catalog.spec_scales(), picks)
            },
    ensures
        scale_views(v) == select(
            catalog.spec_scales(),
            Seq::new(catalog.spec_scales().len(), |i: int| p(catalog.spec_scales()[i])),
        ),
{
    let picks = choose|picks: Seq<bool>|
        {
            &&& picks.len() == catalog.spec_raw().len()
            &&& forall|i: int|
                0 <= i < picks.len() ==> filter.ensures(
                    (&catalog.spec_raw()[i].1,),
                    #[trigger] picks[i],
                )
            &&& scale_views(v) == select(catalog.spec_scales(), picks)
        };
    let views = catalog.spec_scales();
    assert forall|i: int| 0 <= i < views.len() implies picks[i] == p(views[i]) by {
        assert(filter.ensures((&catalog.spec_raw()[i].1,), picks[i]));
        assert(views[i] == catalog.spec_raw()[i].1@);
    }
    assert(picks =~= Seq::new(views.len(), |i: int| p(views[i])));
}

/// The scales with more than `min_intervals` intervals.
pub fn find_scales_with_intervals_greater_than(catalog: &ScaleCatalog, min_intervals: usize) -> (r:
    Result<Vec<Scale>, ScaleOmnibusError>)
    ensures
        r matches Ok(v) && scale_views(v@) == select(
            catalog.spec_scales(),
            Seq::new(
                catalog.spec_scales().len(),
                |i: int| more_intervals_than(catalog.spec_scales()[i], min_intervals),
            ),
        ),
{
    let pred = move |scale: &Scale| -> (b: bool)
        ensures
            b == more_intervals_than(scale@, min_intervals),
        {
            match &scale.intervals {
                Some(intervals) => intervals.len() > min_intervals,
                None => false,
            }
        };
    let r = filter_scales(catalog, pred);
    proof {
        let p = |x: ScaleView| more_intervals_than(x, min_intervals);
        lemma_picks_follow(catalog, r->Ok_0@, p, pred);
        let views = catalog.spec_scales();
        assert(Seq::new(views.len(), |i: int| p(views[i])) =~= Seq::new(
            views.len(),
            |i: int| more_intervals_than(views[i], min_intervals),
        ));
    }
    r
}

/// The scales whose origin matches `origin`, ignoring case.
pub fn find_scales_by_origin(catalog: &ScaleCatalog, origin: &str) -> (r: Result<
    Vec<Scale>,
    ScaleOmnibusError,
>)
    ensures
        r matches Ok(v) && scale_views(v@) == select(
            catalog.spec_scales(),
            Seq::new(
                catalog.spec_scales().len(),
                |i: int| from_origin(catalog.spec_scales()[i], origin@),
            ),
        ),
{
    let wanted = lowercase(origin);
    let pred = |scale: &Scale| -> (b: bool)
        ensures
            b == from_origin(scale@, origin@),
        {
            match &scale.origin {
                Some(o) => lowercase(o.as_str()) == wanted,
                None => false,
            }
        };
    let r = filter_scales(catalog, pred);
    proof {
        let p = |x: ScaleView| from_origin(x, origin@);
        lemma_picks_follow(catalog, r->Ok_0@, p, pred);
        let views = catalog.spec_scales();
        assert(Seq::new(views.len(), |i: int| p(views[i])) =~= Seq::new(
            views.len(),
            |i: int| from_origin(views[i], origin@),
        ));
    }
    r
}

/// The scales with ascending intervals of their own, which differ from the
/// descending ones.
pub fn find_scales_with_up_down_intervals(catalog: &ScaleCatalog) -> (r: Result<
    Vec<Scale>,
    ScaleOmnibusError,
>)
    ensures
        r matches Ok(v) && scale_views(v@) == select(
            catalog.spec_scales(),
            Seq::new(
                catalog.spec_scales().len(),
                |i: int| has_up_down_intervals(catalog.spec_scales()[i]),
            ),
        ),
{
    let pred = |scale: &Scale| -> (b: bool)
        ensures
            b == has_up_down_intervals(scale@),
        { scale.intervals_ascending.is_some() };
    let r = filter_scales(catalog, pred);
    proof {
        let p = |x: ScaleView| has_up_down_intervals(x);
        lemma_picks_follow(catalog, r->Ok_0@, p, pred);
        let views = catalog.spec_scales();
        assert(Seq::new(views.len(), |i: int| p(views[i])) =~= Seq::new(
            views.len(),
            |i: int| has_up_down_intervals(views[i]),
        ));
    }
    r
}

} // verus!
