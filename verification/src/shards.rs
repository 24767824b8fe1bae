//! The files that an index of safetensors shards names.

use vstd::prelude::*;

verus! {

/// A JSON value. The value of a number is left out.
pub enum Json {
    Null,
    Bool(bool),
    Number,
    Text(Seq<char>),
    Array(Seq<Json>),
    Object(Map<Seq<char>, Json>),
}

/// `serde_json::Value`, a parsed JSON text.
#[verifier::external_type_specification]
#[verifier::external_body]
pub struct ExValue(serde_json::Value);

/// `serde_json::Error`, why a text is not JSON.
#[verifier::external_type_specification]
#[verifier::external_body]
pub struct ExError(serde_json::Error);

/// `serde_json::Map`, the entries of a JSON object.
#[verifier::external_type_specification]
#[verifier::external_body]
#[verifier::reject_recursive_types(K)]
#[verifier::reject_recursive_types(V)]
pub struct ExMap<K, V>(serde_json::Map<K, V>);

/// What `serde_json::from_slice` reads a text as, if it is JSON.
pub uninterp spec fn json_text(bytes: Seq<u8>) -> Option<Json>;

/// What a `serde_json::Value` holds.
pub uninterp spec fn json_of(value: serde_json::Value) -> Json;

/// What a `serde_json::Map` holds.
pub uninterp spec fn entries_of(map: serde_json::Map<String, serde_json::Value>) -> Map<
    Seq<char>,
    Json,
>;

/// Calls `serde_json::from_slice`. Whether it succeeds, and what the value then
/// holds, is a function of the bytes.
#[verifier::external_body]
fn parse(bytes: &[u8]) -> (r: Result<serde_json::Value, serde_json::Error>)
    ensures
        (r is Ok) == (json_text(bytes@) is Some),
        r matches Ok(value) ==> Some(json_of(value)) == json_text(bytes@),
{
    serde_json::from_slice(bytes)
}

/// Calls `serde_json::Value::get` with a text index: the entry of that name, where
/// the value is an object that has one.
#[verifier::external_body]
fn get<'a>(value: &'a serde_json::Value, key: &str) -> (r: Option<&'a serde_json::Value>)
    ensures
        match json_of(*value) {
            Json::Object(entries) => {
                &&& (r is Some) == entries.contains_key(key@)
                &&& r matches Some(v) ==> json_of(*v) == entries[key@]
            },
            _ => r is None,
        },
{
    value.get(key)
}

/// Calls `serde_json::Value::as_object`: the entries, where the value is an object.
#[verifier::external_body]
fn as_object(value: &serde_json::Value) -> (r: Option<
    &serde_json::Map<String, serde_json::Value>,
>)
    ensures
        match json_of(*value) {
            Json::Object(entries) => r is Some && entries_of(*r->0) == entries,
            _ => r is None,
        },
{
    value.as_object()
}

/// Calls `serde_json::Map::values`: the value of each entry, once per entry, in an
/// order that is left open.
#[verifier::external_body]
fn values(map: &serde_json::Map<String, serde_json::Value>) -> (r: Vec<&serde_json::Value>)
    ensures
        r@.len() == entries_of(*map).dom().len(),
        forall|i: int|
            0 <= i < r@.len() ==> entries_of(*map).contains_value(json_of(*#[trigger] r@[i])),
        forall|k: Seq<char>| #[trigger]
            entries_of(*map).contains_key(k) ==> exists|i: int|
                0 <= i < r@.len() && json_of(*#[trigger] r@[i]) == entries_of(*map)[k],
{
    map.values().collect()
}

/// Calls `serde_json::Value::as_str`: the text, where the value is one.
#[verifier::external_body]
fn as_str(value: &serde_json::Value) -> (r: Option<&str>)
    ensures
        match json_of(*value) {
            Json::Text(text) => r is Some && r->0@ == text,
            _ => r is None,
        },
{
    value.as_str()
}

/// What an index says of the files of its weights.
pub enum WeightMap {
    /// The index has no such entry.
    Missing,
    /// The entry is not an object.
    NotAMap,
    /// For each weight, its file, where one is named.
    Files(Vec<Option<String>>),
}

/// Why an index names no files.
#[derive(Debug)]
pub enum IndexError {
    /// The index is not JSON.
    Syntax(serde_json::Error),
    /// The index has no weight map.
    NoWeightMap,
    /// The weight map is not a map.
    NotAMap,
}

/// Whether a name is among `files`.
pub open spec fn named(files: Seq<Option<String>>, name: Seq<char>) -> bool {
    exists|i: int| 0 <= i < files.len() && #[trigger] files[i] is Some && files[i]->0@ == name
}

/// The names of a list of files.
pub open spec fn names(files: Seq<String>) -> Seq<Seq<char>> {
    files.map_values(|s: String| s@)
}

/// The weight map of an index, where it has one.
pub open spec fn weight_map_of(index: Json) -> Option<Json> {
    match index {
        Json::Object(entries) => if entries.contains_key("weight_map"@) {
            Some(entries["weight_map"@])
        } else {
            None
        },
        _ => None,
    }
}

/// Whether an index with this weight map names a file.
pub open spec fn map_names(weight_map: Map<Seq<char>, Json>, name: Seq<char>) -> bool {
    exists|k: Seq<char>| #[trigger]
        weight_map.contains_key(k) && weight_map[k] == Json::Text(name)
}

/// Whether a name stands in a list.
fn listed(files: &Vec<String>, name: &String) -> (r: bool)
    ensures
        r == names(files@).contains(name@),
{
    let n: usize = files.len();
    for i in 0..n
        invariant
            n == files@.len(),
            forall|j: int| 0 <= j < i ==> files@[j]@ != name@,
    {
        if files[i] == *name {
            assert(names(files@)[i as int] == name@);
            return true;
        }
    }
    false
}

/// Lists each file that a weight map names, once. Weights without a file name are
/// passed over.
pub fn shard_files(weight_map: &WeightMap) -> (r: Result<Vec<String>, IndexError>)
    ensures
        match *weight_map {
            WeightMap::Missing => r matches Err(e) && e is NoWeightMap,
            WeightMap::NotAMap => r matches Err(e) && e is NotAMap,
            WeightMap::Files(files) => {
                &&& r is Ok
                &&& names(r->Ok_0@).no_duplicates()
                &&& forall|name: Seq<char>| #[trigger]
                    names(r->Ok_0@).contains(name) == named(files@, name)
            },
        },
{
    match weight_map {
        WeightMap::Missing => Err(IndexError::NoWeightMap),
        WeightMap::NotAMap => Err(IndexError::NotAMap),
        WeightMap::Files(files) => {
            let n: usize = files.len();
            let mut r: Vec<String> = Vec::new();
            for i in 0..n
                invariant
                    n == files@.len(),
                    names(r@).no_duplicates(),
                    forall|name: Seq<char>| #[trigger]
                        names(r@).contains(name) == named(files@.take(i as int), name),
            {
                let ghost before = r@;
                let ghost seen = files@.take(i as int);
                if let Some(file) = &files[i] {
                    if !listed(&r, file) {
                        r.push(file.clone());
                        assert(names(r@) =~= names(before).push(file@));
                    }
                }
                proof {
                    let next = files@.take(i + 1);
                    assert(next =~= seen.push(files@[i as int]));
                    assert forall|name: Seq<char>| #[trigger]
                        names(r@).contains(name) == named(next, name) by {
                        lemma_named_push(seen, files@[i as int], name);
                        if names(before).contains(name) {
                            let j = choose|j: int|
                                0 <= j < names(before).len() && names(before)[j] == name;
                            assert(names(r@)[j] == name);
                        }
                        if let Some(file) = files@[i as int] {
                            if file@ == name && !names(before).contains(name) {
                                assert(names(r@)[before.len() as int] == name);
                            }
                        }
                    }
                }
            }
            assert(files@.take(n as int) =~= files@);
            Ok(r)
        },
    }
}

/// One more entry names its own file besides those named before.
proof fn lemma_named_push(files: Seq<Option<String>>, file: Option<String>, name: Seq<char>)
    ensures
        named(files.push(file), name) == (named(files, name) || (file is Some && file->0@ == name)),
{
    let all = files.push(file);
    if named(files, name) {
        let i = choose|i: int|
            0 <= i < files.len() && #[trigger] files[i] is Some && files[i]->0@ == name;
        assert(all[i] is Some && all[i]->0@ == name);
    }
    if file is Some && file->0@ == name {
        assert(all[files.len() as int] is Some);
    }
    if named(all, name) {
        let i = choose|i: int|
            0 <= i < all.len() && #[trigger] all[i] is Some && all[i]->0@ == name;
        if i < files.len() {
            assert(files[i] is Some);
        }
    }
}

/// Whether the files in a weight map's listing are those that it holds.
pub open spec fn lists(files: Seq<Option<String>>, weight_map: Map<Seq<char>, Json>) -> bool {
    forall|name: Seq<char>| #[trigger] named(files, name) == map_names(weight_map, name)
}

/// Takes the file names out of the values of a weight map.
fn file_names(map: &serde_json::Map<String, serde_json::Value>) -> (r: Vec<Option<String>>)
    ensures
        lists(r@, entries_of(*map)),
{
    let items = values(map);
    let n: usize = items.len();
    let mut r: Vec<Option<String>> = Vec::new();
    for i in 0..n
        invariant
            n == items@.len(),
            r@.len() == i,
            forall|j: int|
                0 <= j < i ==> match json_of(*items@[j]) {
                    Json::Text(text) => #[trigger] r@[j] is Some && r@[j]->0@ == text,
                    _ => r@[j] is None,
                },
    {
        let file = match as_str(items[i]) {
            Some(text) => Some(text.to_owned()),
            None => None,
        };
        r.push(file);
    }
    proof {
        let entries = entries_of(*map);
        assert forall|name: Seq<char>| #[trigger] named(r@, name) == map_names(entries, name) by {
            if named(r@, name) {
                let i = choose|i: int|
                    0 <= i < r@.len() && #[trigger] r@[i] is Some && r@[i]->0@ == name;
                assert(entries.contains_value(json_of(*items@[i])));
                let k = choose|k: Seq<char>|
                    entries.contains_key(k) && #[trigger] entries[k] == json_of(*items@[i]);
                assert(entries.contains_key(k));
            }
            if map_names(entries, name) {
                let k = choose|k: Seq<char>| #[trigger]
                    entries.contains_key(k) && entries[k] == Json::Text(name);
                let i = choose|i: int|
                    0 <= i < items@.len() && json_of(*#[trigger] items@[i]) == entries[k];
                assert(r@[i] is Some && r@[i]->0@ == name);
            }
        }
    }
    r
}

/// Reads which files an index of safetensors shards names: the texts in its weight
/// map, each once.
pub fn hub_load_safetensors(json: &[u8]) -> (r: Result<Vec<String>, IndexError>)
    ensures
        match json_text(json@) {
            None => r matches Err(e) && e is Syntax,
            Some(index) => match weight_map_of(index) {
                None => r matches Err(e) && e is NoWeightMap,
                Some(Json::Object(weight_map)) => {
                    &&& r is Ok
                    &&& names(r->Ok_0@).no_duplicates()
                    &&& forall|name: Seq<char>| #[trigger]
                        names(r->Ok_0@).contains(name) == map_names(weight_map, name)
                },
                Some(_) => r matches Err(e) && e is NotAMap,
            },
        },
{
    let index = match parse(json) {
        Ok(value) => value,
        Err(e) => {
            return Err(IndexError::Syntax(e));
        },
    };
    let weight_map = match get(&index, "weight_map") {
        None => WeightMap::Missing,
        Some(value) => match as_object(value) {
            Some(map) => WeightMap::Files(file_names(map)),
            None => WeightMap::NotAMap,
        },
    };
    shard_files(&weight_map)
}

/// The weight map of an index is its entry of that name, and an index that is no object has
/// none. Without weights no file is named; one more weight names the file that its text
/// gives, and none where it is no text.
pub proof fn law_weights_name_files(
    entries: Map<Seq<char>, Json>,
    weights: Map<Seq<char>, Json>,
    weight: Seq<char>,
    file: Json,
    name: Seq<char>,
)
    requires
        !weights.contains_key(weight),
    ensures
        weight_map_of(Json::Object(entries.insert("weight_map"@, file))) == Some(file),
        weight_map_of(Json::Object(entries.remove("weight_map"@))) is None,
        forall|index: Json| index !is Object ==> #[trigger] weight_map_of(index) is None,
        !map_names(Map::empty(), name),
        map_names(weights.insert(weight, file), name) == (map_names(weights, name) || file
            == Json::Text(name)),
{
    let more = weights.insert(weight, file);
    if map_names(weights, name) {
        let k = choose|k: Seq<char>| #[trigger]
            weights.contains_key(k) && weights[k] == Json::Text(name);
        assert(more.contains_key(k) && more[k] == Json::Text(name));
    }
    if file == Json::Text(name) {
        assert(more.contains_key(weight) && more[weight] == Json::Text(name));
    }
    if map_names(more, name) {
        let k = choose|k: Seq<char>| #[trigger]
            more.contains_key(k) && more[k] == Json::Text(name);
        if k != weight {
            assert(weights.contains_key(k) && weights[k] == Json::Text(name));
        }
    }
}

} // verus!
