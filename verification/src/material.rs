//! Material index: what one material knows of characteristics, variant tables,
//! classes, objects and values. It is the ground for semantic diagnostics and
//! scopes completion to the material being edited.

use vstd::prelude::*;

use crate::names::{increasing, law_name_set, name_before, name_set, views, NameMap, NameSet};
use crate::text::{chars_of, has_prefix, str_starts};

verus! {

/// Value information for one characteristic.
#[derive(Debug, Clone)]
pub struct CharValueInfo {
    pub values: Vec<String>,
    pub numeric: bool,
    pub description: Option<String>,
    /// The characteristic accepts negative values.
    pub with_sign: bool,
}

/// The code of `c`, an ASCII capital taken as its small letter.
pub open spec fn ascii_fold(c: char) -> int {
    if 'A' <= c <= 'Z' {
        c as int + 32
    } else {
        c as int
    }
}

/// Whether two texts differ in the case of ASCII letters at most.
pub open spec fn same_ignoring_case(a: Seq<char>, b: Seq<char>) -> bool {
    a.len() == b.len() && forall|i: int|
        0 <= i < a.len() ==> ascii_fold(#[trigger] a[i]) == ascii_fold(b[i])
}

fn fold(c: char) -> (res: u32)
    ensures
        res == ascii_fold(c),
{
    if 'A' <= c && c <= 'Z' {
        c as u32 + 32
    } else {
        c as u32
    }
}

/// Whether two strings differ in the case of ASCII letters at most.
pub fn eq_ignoring_case(a: &str, b: &str) -> (res: bool)
    ensures
        res == same_ignoring_case(a@, b@),
{
    let x = chars_of(a);
    let y = chars_of(b);
    if x.len() != y.len() {
        return false;
    }
    let mut i: usize = 0;
    while i < x.len()
        invariant
            i <= x@.len(),
            x@ == a@,
            y@ == b@,
            x@.len() == y@.len(),
            forall|j: int| 0 <= j < i ==> ascii_fold(#[trigger] a@[j]) == ascii_fold(b@[j]),
        decreases x@.len() - i,
    {
        if fold(x[i]) != fold(y[i]) {
            assert(ascii_fold(a@[i as int]) != ascii_fold(b@[i as int]));
            return false;
        }
        i += 1;
    }
    true
}

/// Whether `values` hold `v`, the case of ASCII letters aside.
pub open spec fn holds_value(values: Seq<Seq<char>>, v: Seq<char>) -> bool {
    exists|i: int| 0 <= i < values.len() && same_ignoring_case(#[trigger] values[i], v)
}

impl Default for CharValueInfo {
    fn default() -> (res: CharValueInfo)
        ensures
            res.values@.len() == 0,
            !res.numeric,
            res.description is None,
            !res.with_sign,
    {
        CharValueInfo { values: Vec::new(), numeric: false, description: None, with_sign: false }
    }
}

impl CharValueInfo {
    /// Whether any value is known.
    pub fn has_values(&self) -> (res: bool)
        ensures
            res == (self.values@.len() > 0),
    {
        self.values.len() > 0
    }

    /// Whether `v` is a known value, the case of ASCII letters aside.
    pub fn contains_value(&self, v: &str) -> (res: bool)
        ensures
            res == holds_value(views(self.values@), v@),
    {
        let mut i: usize = 0;
        while i < self.values.len()
            invariant
                i <= self.values@.len(),
                forall|j: int|
                    0 <= j < i ==> !same_ignoring_case(#[trigger] views(self.values@)[j], v@),
            decreases self.values@.len() - i,
        {
            assert(views(self.values@)[i as int] == self.values@[i as int]@);
            if eq_ignoring_case(self.values[i].as_str(), v) {
                return true;
            }
            i += 1;
        }
        false
    }
}

/// Membership in a value range does not depend on the case of ASCII letters.
pub proof fn law_values_ignore_case(values: Seq<Seq<char>>, v: Seq<char>, w: Seq<char>)
    requires
        same_ignoring_case(v, w),
    ensures
        holds_value(values, v) == holds_value(values, w),
{
    assert forall|i: int| 0 <= i < values.len() implies same_ignoring_case(
        #[trigger] values[i],
        v,
    ) == same_ignoring_case(values[i], w) by {
        let x = values[i];
        if same_ignoring_case(x, v) {
            assert forall|j: int| 0 <= j < x.len() implies ascii_fold(#[trigger] x[j])
                == ascii_fold(w[j]) by {
                assert(ascii_fold(v[j]) == ascii_fold(w[j]));
            }
        }
        if same_ignoring_case(x, w) {
            assert forall|j: int| 0 <= j < x.len() implies ascii_fold(#[trigger] x[j])
                == ascii_fold(v[j]) by {
                assert(ascii_fold(v[j]) == ascii_fold(w[j]));
            }
        }
    }
}

/// Every known value is found.
pub proof fn law_known_value_is_held(values: Seq<Seq<char>>, i: int)
    requires
        0 <= i < values.len(),
    ensures
        holds_value(values, values[i]),
{
    assert(same_ignoring_case(values[i], values[i]));
}

/// What is known of one material.
#[derive(Debug)]
pub struct MaterialIndex {
    pub material: Option<String>,
    pub system: Option<String>,
    pub chars: NameSet,
    pub tables: NameSet,
    pub objects: NameSet,
    pub deps: Vec<String>,
    pub char_values: NameMap<CharValueInfo>,
    /// Target classes of `IS_A(300)`.
    pub classes: NameSet,
    /// Variant table to its characteristic columns.
    pub vt_chars: NameMap<Vec<String>>,
    /// Variant table to its key fields.
    pub vt_keys: NameMap<Vec<String>>,
    /// Known variant functions.
    pub variant_functions: NameSet,
    /// Characteristic to the tables and fields that it refers to.
    pub char_refs: NameMap<Vec<(String, String)>>,
}

/// The columns and key fields of one variant table in a material package.
#[derive(Debug)]
pub struct VtStruct {
    pub chars: Vec<String>,
    pub key_fields: Vec<String>,
}

/// A material package as it stands on disk.
#[derive(Debug)]
pub struct MaterialFile {
    pub material: Option<String>,
    pub system: Option<String>,
    pub chars: Vec<String>,
    pub tables: Vec<String>,
    pub objects: Vec<String>,
    /// The names of the dependencies.
    pub deps: Vec<String>,
    pub char_values: Vec<(String, CharValueInfo)>,
    pub classes: Vec<String>,
    pub vt_chars: Vec<(String, VtStruct)>,
    pub variant_functions: Vec<String>,
    pub char_refs: Vec<(String, Vec<(String, String)>)>,
}

/// What a list of entries says of `key`: the last entry counts.
pub open spec fn entry<T>(entries: Seq<(String, T)>, key: Seq<char>) -> Option<T>
    decreases entries.len(),
{
    if entries.len() == 0 {
        None
    } else if entries.last().0@ == key {
        Some(entries.last().1)
    } else {
        entry(entries.drop_last(), key)
    }
}

/// Whether `map` holds for each key what `entries` say of it.
pub open spec fn holds_entries<T>(map: Map<Seq<char>, T>, entries: Seq<(String, T)>) -> bool {
    forall|key: Seq<char>|
        (#[trigger] map.contains_key(key) <==> entry(entries, key) is Some) && (map.contains_key(key)
            ==> map[key] == entry(entries, key)->0)
}

/// Whether `map` holds for each table the columns that `entries` give it.
pub open spec fn holds_columns(
    map: Map<Seq<char>, Vec<String>>,
    entries: Seq<(String, VtStruct)>,
) -> bool {
    forall|key: Seq<char>|
        (#[trigger] map.contains_key(key) <==> entry(entries, key) is Some) && (map.contains_key(key)
            ==> views(map[key]@) == views((entry(entries, key)->0).chars@))
}

/// Whether `map` holds for each table the key fields that `entries` give it.
pub open spec fn holds_key_fields(
    map: Map<Seq<char>, Vec<String>>,
    entries: Seq<(String, VtStruct)>,
) -> bool {
    forall|key: Seq<char>|
        (#[trigger] map.contains_key(key) <==> entry(entries, key) is Some) && (map.contains_key(key)
            ==> views(map[key]@) == views((entry(entries, key)->0).key_fields@))
}

/// The characteristics among `names` that start with `partial`.
pub open spec fn matching(names: Seq<Seq<char>>, partial: Seq<char>) -> Seq<Seq<char>> {
    names.filter(|n: Seq<char>| has_prefix(n, partial))
}

impl Default for MaterialIndex {
    fn default() -> (res: MaterialIndex)
        ensures
            res.is_blank(),
    {
        MaterialIndex {
            material: None,
            system: None,
            chars: NameSet::new(),
            tables: NameSet::new(),
            objects: NameSet::new(),
            deps: Vec::new(),
            char_values: NameMap::new(),
            classes: NameSet::new(),
            vt_chars: NameMap::new(),
            vt_keys: NameMap::new(),
            variant_functions: NameSet::new(),
            char_refs: NameMap::new(),
        }
    }
}

impl MaterialIndex {
    /// Whether nothing at all is known.
    pub open spec fn is_blank(self) -> bool {
        &&& self.material is None
        &&& self.system is None
        &&& self.chars@ == Seq::<Seq<char>>::empty()
        &&& self.tables@ == Seq::<Seq<char>>::empty()
        &&& self.objects@ == Seq::<Seq<char>>::empty()
        &&& self.deps@ == Seq::<String>::empty()
        &&& self.char_values@ == Map::<Seq<char>, CharValueInfo>::empty()
        &&& self.classes@ == Seq::<Seq<char>>::empty()
        &&& self.vt_chars@ == Map::<Seq<char>, Vec<String>>::empty()
        &&& self.vt_keys@ == Map::<Seq<char>, Vec<String>>::empty()
        &&& self.variant_functions@ == Seq::<Seq<char>>::empty()
        &&& self.char_refs@ == Map::<Seq<char>, Vec<(String, String)>>::empty()
    }

    /// Whether the index says what `data` says.
    pub open spec fn represents(self, data: MaterialFile) -> bool {
        &&& self.material == data.material
        &&& self.system == data.system
        &&& self.chars@ == name_set(views(data.chars@))
        &&& self.tables@ == name_set(views(data.tables@))
        &&& self.objects@ == name_set(views(data.objects@))
        &&& self.deps@ == data.deps@
        &&& holds_entries(self.char_values@, data.char_values@)
        &&& self.classes@ == name_set(views(data.classes@))
        &&& holds_columns(self.vt_chars@, data.vt_chars@)
        &&& holds_key_fields(self.vt_keys@, data.vt_chars@)
        &&& self.variant_functions@ == name_set(views(data.variant_functions@))
        &&& holds_entries(self.char_refs@, data.char_refs@)
    }

    /// Whether there is no characteristic, no table and no object.
    pub open spec fn has_no_universe(self) -> bool {
        self.chars@.len() == 0 && self.tables@.len() == 0 && self.objects@.len() == 0
    }

    /// The index of a material package; nothing is known without one.
    pub fn load(data: Option<MaterialFile>) -> (res: MaterialIndex)
        ensures
            match data {
                None => res.is_blank(),
                Some(data) => res.represents(data),
            },
    {
        match data {
            None => MaterialIndex::default(),
            Some(data) => {
                let (vt_chars, vt_keys) = table_maps(&data.vt_chars);
                MaterialIndex {
                    material: data.material,
                    system: data.system,
                    chars: NameSet::collect(&data.chars),
                    tables: NameSet::collect(&data.tables),
                    objects: NameSet::collect(&data.objects),
                    deps: data.deps,
                    char_values: entry_map(data.char_values),
                    classes: NameSet::collect(&data.classes),
                    vt_chars,
                    vt_keys,
                    variant_functions: NameSet::collect(&data.variant_functions),
                    char_refs: entry_map(data.char_refs),
                }
            },
        }
    }

    /// Whether there is no characteristic, no table and no object.
    pub fn is_empty(&self) -> (res: bool)
        ensures
            res == self.has_no_universe(),
    {
        self.chars.is_empty() && self.tables.is_empty() && self.objects.is_empty()
    }

    /// Characteristic names that start with `partial`, in order.
    pub fn completions_for(&self, partial: &str) -> (res: Vec<String>)
        ensures
            views(res@) == matching(self.chars@, partial@),
            increasing(views(res@)),
            forall|n: Seq<char>| #[trigger]
                views(res@).contains(n) <==> self.chars@.contains(n) && has_prefix(n, partial@),
    {
        let names = self.chars.to_vec();
        let mut res: Vec<String> = Vec::new();
        let mut i: usize = 0;
        assert(self.chars@.take(0) =~= Seq::<Seq<char>>::empty());
        proof {
            reveal(Seq::filter);
        }
        assert(views(res@) =~= matching(self.chars@.take(0), partial@));
        while i < names.len()
            invariant
                i <= names@.len(),
                views(names@) == self.chars@,
                views(res@) == matching(self.chars@.take(i as int), partial@),
            decreases names@.len() - i,
        {
            proof {
                reveal(Seq::filter);
                assert(self.chars@.take(i + 1).drop_last() =~= self.chars@.take(i as int));
                assert(self.chars@[i as int] == names@[i as int]@);
            }
            if str_starts(names[i].as_str(), partial) {
                let ghost before = res@;
                res.push(names[i].clone());
                assert(views(res@) =~= views(before).push(names@[i as int]@));
            }
            i += 1;
        }
        assert(self.chars@.take(i as int) =~= self.chars@);
        proof {
            law_matching(self.chars@, partial@);
        }
        res
    }

    /// The name under which data of the material is filed.
    pub fn folder_name(&self) -> (res: String)
        ensures
            res@ == match self.material {
                Some(name) => name@,
                None => "unknown"@,
            },
    {
        match &self.material {
            Some(name) => name.clone(),
            None => "unknown".to_owned(),
        }
    }
}

/// The matching names keep their order, and are those that match.
pub proof fn law_matching(names: Seq<Seq<char>>, partial: Seq<char>)
    requires
        increasing(names),
    ensures
        increasing(matching(names, partial)),
        forall|n: Seq<char>| #[trigger]
            matching(names, partial).contains(n) <==> names.contains(n) && has_prefix(n, partial),
    decreases names.len(),
{
    reveal(Seq::filter);
    let res = matching(names, partial);
    if names.len() > 0 {
        let init = names.drop_last();
        let last = names.last();
        assert forall|i: int, j: int| 0 <= i < j < init.len() implies #[trigger] name_before(
            init[i],
            init[j],
        ) by {
            assert(name_before(names[i], names[j]));
        }
        law_matching(init, partial);
        let sub = matching(init, partial);
        assert forall|n: Seq<char>| #[trigger] names.contains(n) <==> init.contains(n) || n
            == last by {
            if names.contains(n) {
                let k = choose|k: int| 0 <= k < names.len() && names[k] == n;
                if k < init.len() {
                    assert(init[k] == n);
                }
            }
            if init.contains(n) {
                let k = choose|k: int| 0 <= k < init.len() && init[k] == n;
                assert(names[k] == n);
            }
            assert(names[names.len() - 1] == last);
        }
        if has_prefix(last, partial) {
            assert(res == sub.push(last));
            assert forall|i: int, j: int| 0 <= i < j < res.len() implies #[trigger] name_before(
                res[i],
                res[j],
            ) by {
                if j == res.len() - 1 {
                    assert(sub.contains(sub[i]));
                    let k = choose|k: int| 0 <= k < init.len() && init[k] == sub[i];
                    assert(name_before(names[k], names[names.len() - 1]));
                } else {
                    assert(name_before(sub[i], sub[j]));
                }
            }
            assert forall|n: Seq<char>| #[trigger] res.contains(n) <==> sub.contains(n) || n
                == last by {
                if sub.contains(n) {
                    let k = choose|k: int| 0 <= k < sub.len() && sub[k] == n;
                    assert(res[k] == n);
                }
                assert(res[res.len() - 1] == last);
                if res.contains(n) {
                    let k = choose|k: int| 0 <= k < res.len() && res[k] == n;
                    if k < sub.len() {
                        assert(sub[k] == n);
                    }
                }
            }
        }
    }
}

/// The map that a list of entries gives.
fn entry_map<T>(entries: Vec<(String, T)>) -> (res: NameMap<T>)
    ensures
        holds_entries(res@, entries@),
{
    let mut res: NameMap<T> = NameMap::new();
    let ghost all = entries@;
    let mut rest = entries;
    // Entries come off the end, so the last one for a key is met first.
    while rest.len() > 0
        invariant
            rest@.len() <= all.len(),
            rest@ == all.take(rest@.len() as int),
            forall|key: Seq<char>| #[trigger]
                entry(all, key) == if res@.contains_key(key) {
                    Some(res@[key])
                } else {
                    entry(rest@, key)
                },
        decreases rest@.len(),
    {
        let ghost before = rest@;
        match rest.pop() {
            None => {},
            Some((key, value)) => {
                assert(before.drop_last() =~= rest@);
                assert(rest@ =~= all.take(rest@.len() as int));
                if !res.contains_key(key.as_str()) {
                    res.insert(key, value);
                }
            },
        }
    }
    res
}

/// The columns and the key fields of the tables.
fn table_maps(entries: &Vec<(String, VtStruct)>) -> (res: (NameMap<Vec<String>>, NameMap<Vec<String>>))
    ensures
        holds_columns(res.0@, entries@),
        holds_key_fields(res.1@, entries@),
{
    let mut columns: NameMap<Vec<String>> = NameMap::new();
    let mut keys: NameMap<Vec<String>> = NameMap::new();
    let mut i: usize = 0;
    assert(entries@.take(0) =~= Seq::<(String, VtStruct)>::empty());
    while i < entries.len()
        invariant
            i <= entries@.len(),
            holds_columns(columns@, entries@.take(i as int)),
            holds_key_fields(keys@, entries@.take(i as int)),
        decreases entries@.len() - i,
    {
        let table = &entries[i];
        let cs = table.1.chars.clone();
        let ks = table.1.key_fields.clone();
        assert(views(cs@) =~= views(table.1.chars@));
        assert(views(ks@) =~= views(table.1.key_fields@));
        assert(entries@.take(i + 1).drop_last() =~= entries@.take(i as int));
        columns.insert(table.0.clone(), cs);
        keys.insert(table.0.clone(), ks);
        i += 1;
    }
    assert(entries@.take(i as int) =~= entries@);
    (columns, keys)
}

/// Whether entry number `k` is the last one of a key.
pub open spec fn is_last_entry<T>(entries: Seq<(String, T)>, key: Seq<char>, k: int) -> bool {
    &&& 0 <= k < entries.len() && entries[k].0@ == key
    &&& forall|j: int| k < j < entries.len() ==> (#[trigger] entries[j]).0@ != key
}

/// A list of entries says something of a key if and only if an entry has it, and
/// then what the last such entry says.
pub proof fn law_entry<T>(entries: Seq<(String, T)>, key: Seq<char>)
    ensures
        entry(entries, key) is Some <==> exists|k: int|
            0 <= k < entries.len() && (#[trigger] entries[k]).0@ == key,
        forall|k: int| #[trigger]
            is_last_entry(entries, key, k) ==> entry(entries, key) == Some(entries[k].1),
    decreases entries.len(),
{
    if entries.len() > 0 {
        let init = entries.drop_last();
        law_entry(init, key);
        assert(entries[entries.len() - 1] == entries.last());
        if exists|k: int| 0 <= k < init.len() && (#[trigger] init[k]).0@ == key {
            let k = choose|k: int| 0 <= k < init.len() && (#[trigger] init[k]).0@ == key;
            assert(entries[k] == init[k]);
        }
        if exists|k: int| 0 <= k < entries.len() && (#[trigger] entries[k]).0@ == key {
            let k = choose|k: int| 0 <= k < entries.len() && (#[trigger] entries[k]).0@ == key;
            if k < init.len() {
                assert(init[k] == entries[k]);
            }
        }
        assert forall|k: int| #[trigger] is_last_entry(entries, key, k) implies entry(entries, key)
            == Some(entries[k].1) by {
            if k < init.len() {
                assert(entries[entries.len() - 1].0@ != key);
                assert(init[k] == entries[k]);
                assert forall|j: int| k < j < init.len() implies (#[trigger] init[j]).0@
                    != key by {
                    assert(entries[j] == init[j]);
                }
                assert(is_last_entry(init, key, k));
            }
        }
    }
}

/// An index knows the names of a material package, field by field, and nothing
/// else.
pub proof fn law_represents(index: MaterialIndex, data: MaterialFile, name: Seq<char>)
    requires
        index.represents(data),
    ensures
        index.chars@.contains(name) <==> views(data.chars@).contains(name),
        index.tables@.contains(name) <==> views(data.tables@).contains(name),
        index.objects@.contains(name) <==> views(data.objects@).contains(name),
        index.classes@.contains(name) <==> views(data.classes@).contains(name),
        index.variant_functions@.contains(name) <==> views(data.variant_functions@).contains(name),
        index.char_values@.contains_key(name) <==> exists|k: int|
            0 <= k < data.char_values@.len() && (#[trigger] data.char_values@[k]).0@ == name,
        index.char_refs@.contains_key(name) <==> exists|k: int|
            0 <= k < data.char_refs@.len() && (#[trigger] data.char_refs@[k]).0@ == name,
        index.vt_chars@.contains_key(name) <==> exists|k: int|
            0 <= k < data.vt_chars@.len() && (#[trigger] data.vt_chars@[k]).0@ == name,
        index.vt_keys@.contains_key(name) <==> exists|k: int|
            0 <= k < data.vt_chars@.len() && (#[trigger] data.vt_chars@[k]).0@ == name,
        index.material == data.material && index.system == data.system,
        index.deps@ == data.deps@,
{
    law_name_set(views(data.chars@));
    law_name_set(views(data.tables@));
    law_name_set(views(data.objects@));
    law_name_set(views(data.classes@));
    law_name_set(views(data.variant_functions@));
    law_entry(data.char_values@, name);
    law_entry(data.char_refs@, name);
    law_entry(data.vt_chars@, name);
}

/// An index gives a characteristic the values, and a table the columns and key
/// fields, of the last entry of a material package that is about it.
pub proof fn law_represented_entries(
    index: MaterialIndex,
    data: MaterialFile,
    name: Seq<char>,
    k: int,
)
    requires
        index.represents(data),
    ensures
        is_last_entry(data.char_values@, name, k) ==> index.char_values@[name]
            == data.char_values@[k].1,
        is_last_entry(data.char_refs@, name, k) ==> index.char_refs@[name] == data.char_refs@[k].1,
        is_last_entry(data.vt_chars@, name, k) ==> views(index.vt_chars@[name]@) == views(
            data.vt_chars@[k].1.chars@,
        ),
        is_last_entry(data.vt_chars@, name, k) ==> views(index.vt_keys@[name]@) == views(
            data.vt_chars@[k].1.key_fields@,
        ),
{
    law_entry(data.char_values@, name);
    law_entry(data.char_refs@, name);
    law_entry(data.vt_chars@, name);
    assert(index.char_values@.contains_key(name) <==> entry(data.char_values@, name) is Some);
    assert(index.char_refs@.contains_key(name) <==> entry(data.char_refs@, name) is Some);
    assert(index.vt_chars@.contains_key(name) <==> entry(data.vt_chars@, name) is Some);
    assert(index.vt_keys@.contains_key(name) <==> entry(data.vt_chars@, name) is Some);
}

/// Whether two characters are the same, or the capital and the small form of
/// one ASCII letter.
pub open spec fn is_same_letter(a: char, b: char) -> bool {
    ||| a == b
    ||| 65 <= a as u32 <= 90 && b as u32 == a as u32 + 32
    ||| 65 <= b as u32 <= 90 && a as u32 == b as u32 + 32
}

/// Two texts differ in case at most if and only if each two characters do.
pub proof fn law_same_ignoring_case(a: Seq<char>, b: Seq<char>)
    ensures
        same_ignoring_case(a, b) <==> a.len() == b.len() && forall|i: int|
            0 <= i < a.len() ==> is_same_letter(#[trigger] a[i], b[i]),
{
    if same_ignoring_case(a, b) {
        assert forall|i: int| 0 <= i < a.len() implies is_same_letter(#[trigger] a[i], b[i]) by {
            assert(ascii_fold(a[i]) == ascii_fold(b[i]));
        }
    }
    if a.len() == b.len() && forall|i: int|
        0 <= i < a.len() ==> is_same_letter(#[trigger] a[i], b[i]) {
        assert forall|i: int| 0 <= i < a.len() implies ascii_fold(#[trigger] a[i]) == ascii_fold(
            b[i],
        ) by {
            lemma_same_letter(a[i], b[i]);
        }
    }
}

proof fn lemma_same_letter(a: char, b: char)
    requires
        is_same_letter(a, b),
    ensures
        ascii_fold(a) == ascii_fold(b),
{
    assert(a as int == a as u32 as int);
    assert(b as int == b as u32 as int);
    assert('A' <= a <= 'Z' <==> 65 <= a as u32 <= 90);
    assert('A' <= b <= 'Z' <==> 65 <= b as u32 <= 90);
}

} // verus!
