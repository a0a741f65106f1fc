//! The saved application state: a JSON document whose `history` array lists
//! the images converted before, each with the `path` of its file, beside
//! whatever else the interface keeps there (`customCharacters`, ...).
use vstd::prelude::*;

verus! {

#[verifier::external_type_specification]
#[verifier::external_body]
pub struct ExJsonValue(serde_json::Value);

/// A JSON document as plain values.
pub enum JsonView {
    Null,
    Bool(bool),
    /// A number, as serde_json writes it.
    Number(Seq<char>),
    Text(Seq<char>),
    Array(Seq<JsonView>),
    Object(Map<Seq<char>, JsonView>),
}

/// The document that a serde_json value holds.
pub uninterp spec fn json_of(value: serde_json::Value) -> JsonView;

/// The document that `serde_json::from_str` reads from `text`, or `None`
/// where it reports an error.
pub uninterp spec fn parsed_json(text: Seq<char>) -> Option<JsonView>;

/// The text that `serde_json::to_string_pretty` writes for a document.
pub uninterp spec fn pretty_json(doc: JsonView) -> Seq<char>;

/// The fields of an object; `null` counts as the empty object.
pub open spec fn fields_of(doc: JsonView) -> Map<Seq<char>, JsonView> {
    match doc {
        JsonView::Object(fields) => fields,
        _ => Map::empty(),
    }
}

/// The field `key` of an object, `None` for a missing field or a document
/// that is no object.
pub open spec fn field_of(doc: JsonView, key: Seq<char>) -> Option<JsonView> {
    match doc {
        JsonView::Object(fields) => if fields.dom().contains(key) {
            Some(fields[key])
        } else {
            None
        },
        _ => None,
    }
}

/// The items of the `history` array, `None` when the document has no such
/// array.
pub open spec fn history_of(doc: JsonView) -> Option<Seq<JsonView>> {
    match field_of(doc, "history"@) {
        Some(JsonView::Array(items)) => Some(items),
        _ => None,
    }
}

/// The `path` string of a history item, `None` when it has none.
pub open spec fn path_of(item: JsonView) -> Option<Seq<char>> {
    match field_of(item, "path"@) {
        Some(JsonView::Text(path)) => Some(path),
        _ => None,
    }
}

/// Paths as texts.
pub open spec fn path_texts(paths: Seq<Option<String>>) -> Seq<Option<Seq<char>>> {
    paths.map_values(|p: Option<String>| match p {
        Some(s) => Some(s@),
        None => None,
    })
}

/// The documents that serde_json values hold.
pub open spec fn docs_of(values: Seq<serde_json::Value>) -> Seq<JsonView> {
    values.map_values(|v: serde_json::Value| json_of(v))
}

/// The document with its `history` array cut down to the items at
/// `kept`, in that order; a document without a `history` array stays as
/// it is.
pub open spec fn retained(doc: JsonView, kept: Seq<usize>) -> JsonView {
    match history_of(doc) {
        Some(items) => JsonView::Object(
            fields_of(doc).insert(
                "history"@,
                JsonView::Array(kept.map_values(|k: usize| items[k as int])),
            ),
        ),
        None => doc,
    }
}

/// The document with an empty `history` array in place of whatever was
/// there.
pub open spec fn history_cleared(doc: JsonView) -> JsonView {
    JsonView::Object(fields_of(doc).insert("history"@, JsonView::Array(Seq::empty())))
}

/// The state that a first start begins with: no history and no custom
/// character sets.
pub open spec fn initial_state() -> JsonView {
    JsonView::Object(
        Map::empty().insert("history"@, JsonView::Array(Seq::empty())).insert(
            "customCharacters"@,
            JsonView::Array(Seq::empty()),
        ),
    )
}

/// Whether `kept` lists, in increasing order, exactly the positions `i`
/// whose path is known and whose file exists.
pub open spec fn lists_kept(kept: Seq<usize>, paths: Seq<Option<String>>, exists: Seq<bool>) -> bool {
    &&& forall|j: int|
        #![trigger kept[j]]
        0 <= j < kept.len() ==> {
            &&& kept[j] < paths.len()
            &&& paths[kept[j] as int] is Some
            &&& exists[kept[j] as int]
        }
    &&& forall|j1: int, j2: int| 0 <= j1 < j2 < kept.len() ==> kept[j1] < kept[j2]
    &&& forall|i: int|
        0 <= i < paths.len() && #[trigger] paths[i] is Some && exists[i] ==> kept.contains(
            i as usize,
        )
}

/// `serde_json::from_str` into a JSON value, with the error turned into its
/// message.
///
/// Claimed: the value holds the named document read from `text`, and an
/// error comes exactly where that is `None`. The parser stops at a nesting
/// depth of 128 with an error.
#[verifier::external_body]
fn parse_json(text: &str) -> (r: Result<serde_json::Value, String>)
    ensures
        match r {
            Ok(value) => parsed_json(text@) == Some(json_of(value)),
            Err(_) => parsed_json(text@) is None,
        },
{
    serde_json::from_str::<serde_json::Value>(text).map_err(|error| error.to_string())
}

/// `serde_json::to_string_pretty` of a JSON value.
///
/// Claimed: the text is the named pretty text of the value's document, and
/// it succeeds: serializing a `Value` fails only where the writer fails or
/// a map key is no string, and a `Value`'s keys are strings written into a
/// vector.
#[verifier::external_body]
fn pretty_text(value: &serde_json::Value) -> (r: Result<String, String>)
    ensures
        r is Ok,
        r matches Ok(text) ==> text@ == pretty_json(json_of(*value)),
{
    serde_json::to_string_pretty(value).map_err(|error| error.to_string())
}

/// `Value::get` with a string key.
///
/// Claimed, as the source shows: the field of that name of an object, and
/// `None` for a missing field or a value that is no object.
#[verifier::external_body]
fn json_get<'a>(value: &'a serde_json::Value, key: &str) -> (r: Option<&'a serde_json::Value>)
    ensures
        match field_of(json_of(*value), key@) {
            Some(field) => r matches Some(f) && json_of(*f) == field,
            None => r is None,
        },
{
    value.get(key)
}

/// `Value::as_array`.
///
/// Claimed, as the source shows: the items of an array, `None` for any
/// other value.
#[verifier::external_body]
fn json_items(value: &serde_json::Value) -> (r: Option<&Vec<serde_json::Value>>)
    ensures
        match json_of(*value) {
            JsonView::Array(items) => r matches Some(v) && docs_of(v@) == items,
            _ => r is None,
        },
{
    value.as_array()
}

/// `Value::as_str`.
///
/// Claimed, as the source shows: the text of a string, `None` for any
/// other value.
#[verifier::external_body]
fn json_str(value: &serde_json::Value) -> (r: Option<&str>)
    ensures
        match json_of(*value) {
            JsonView::Text(text) => r matches Some(t) && t@ == text,
            _ => r is None,
        },
{
    value.as_str()
}

/// `Value::is_object`.
#[verifier::external_body]
fn json_is_object(value: &serde_json::Value) -> (r: bool)
    ensures
        r == (json_of(*value) is Object),
{
    value.is_object()
}

/// `Value::is_null`.
#[verifier::external_body]
fn json_is_null(value: &serde_json::Value) -> (r: bool)
    ensures
        r == (json_of(*value) is Null),
{
    value.is_null()
}

/// `Value::clone`: a value holding the same document.
#[verifier::external_body]
fn json_clone(value: &serde_json::Value) -> (r: serde_json::Value)
    ensures
        json_of(r) == json_of(*value),
{
    value.clone()
}

/// The array `Value::Array(items)`.
#[verifier::external_body]
fn json_array(items: Vec<serde_json::Value>) -> (r: serde_json::Value)
    ensures
        json_of(r) == JsonView::Array(docs_of(items@)),
{
    serde_json::Value::Array(items)
}

/// The empty object `Value::Object(Map::new())`.
#[verifier::external_body]
fn json_empty_object() -> (r: serde_json::Value)
    ensures
        json_of(r) == JsonView::Object(Map::empty()),
{
    serde_json::Value::Object(serde_json::Map::new())
}

/// `value[key] = field`, through `IndexMut` with a string key.
///
/// Claimed, as the source shows: `null` first becomes the empty object,
/// then the field is inserted or replaced. For any other value that is no
/// object the index panics, which `requires` leaves out.
#[verifier::external_body]
fn json_set(value: &mut serde_json::Value, key: &str, field: serde_json::Value)
    requires
        json_of(*old(value)) is Object || json_of(*old(value)) is Null,
    ensures
        json_of(*final(value)) == JsonView::Object(
            fields_of(json_of(*old(value))).insert(key@, json_of(field)),
        ),
{
    value[key] = field;
}

/// The saved state of the application.
pub struct AppState {
    value: serde_json::Value,
}

impl View for AppState {
    type V = JsonView;

    closed spec fn view(&self) -> JsonView {
        json_of(self.value)
    }
}

impl AppState {
    /// The state held in a JSON value.
    pub fn from_value(value: serde_json::Value) -> (s: AppState)
        ensures
            s@ == json_of(value),
    {
        AppState { value }
    }

    /// The JSON value of the state.
    pub fn into_value(self) -> (value: serde_json::Value)
        ensures
            json_of(value) == self@,
    {
        self.value
    }
}

/// The state saved in `text`, or the parser's error message.
pub fn parse_app_state(text: &str) -> (r: Result<AppState, String>)
    ensures
        match r {
            Ok(s) => parsed_json(text@) == Some(s@),
            Err(_) => parsed_json(text@) is None,
        },
{
    let value = parse_json(text)?;
    Ok(AppState { value })
}

/// The text to save for a state: its pretty-printed JSON.
pub fn state_text(s: &AppState) -> (r: Result<String, String>)
    ensures
        r matches Ok(text) && text@ == pretty_json(s@),
{
    pretty_text(&s.value)
}

/// The state of a first start: empty `history` and `customCharacters`.
pub fn default_app_state() -> (s: AppState)
    ensures
        s@ == initial_state(),
{
    let mut value = json_empty_object();
    json_set(&mut value, "history", json_array(Vec::new()));
    json_set(&mut value, "customCharacters", json_array(Vec::new()));
    proof {
        assert(docs_of(Seq::<serde_json::Value>::empty()) =~= Seq::<JsonView>::empty());
    }
    AppState { value }
}

/// An empty object, the state that clearing the history starts from when
/// nothing was saved.
pub fn empty_app_state() -> (s: AppState)
    ensures
        s@ == JsonView::Object(Map::empty()),
{
    AppState { value: json_empty_object() }
}

/// The `path` of each item of the `history` array (`None` for an item
/// without a string `path`), or `None` when there is no such array.
pub fn history_paths(s: &AppState) -> (r: Option<Vec<Option<String>>>)
    ensures
        match history_of(s@) {
            Some(items) => r matches Some(paths) && path_texts(paths@) == items.map_values(
                |item: JsonView| path_of(item),
            ),
            None => r is None,
        },
{
    let history = match json_get(&s.value, "history") {
        Some(h) => h,
        None => return None,
    };
    let items = match json_items(history) {
        Some(v) => v,
        None => return None,
    };
    let ghost docs = docs_of(items@);
    let mut paths: Vec<Option<String>> = Vec::new();
    let mut i: usize = 0;
    while i < items.len()
        invariant
            i <= items@.len(),
            docs == docs_of(items@),
            paths@.len() == i,
            forall|j: int| 0 <= j < i ==> path_texts(paths@)[j] == path_of(#[trigger] docs[j]),
        decreases items@.len() - i,
    {
        let item = &items[i];
        assert(docs[i as int] == json_of(*item));
        let path: Option<String> = match json_get(item, "path") {
            Some(field) => match json_str(field) {
                Some(text) => Some(text.to_owned()),
                None => None,
            },
            None => None,
        };
        paths.push(path);
        i = i + 1;
    }
    assert(path_texts(paths@) =~= docs.map_values(|item: JsonView| path_of(item)));
    Some(paths)
}

/// The positions, in increasing order, of the history items whose path is
/// known and whose file exists.
pub fn kept_history(paths: &Vec<Option<String>>, exists: &Vec<bool>) -> (kept: Vec<usize>)
    requires
        paths@.len() == exists@.len(),
    ensures
        lists_kept(kept@, paths@, exists@),
{
    let mut kept: Vec<usize> = Vec::new();
    let mut i: usize = 0;
    while i < paths.len()
        invariant
            i <= paths@.len(),
            paths@.len() == exists@.len(),
            forall|j: int|
                #![trigger kept@[j]]
                0 <= j < kept@.len() ==> {
                    &&& kept@[j] < i
                    &&& paths@[kept@[j] as int] is Some
                    &&& exists@[kept@[j] as int]
                },
            forall|j1: int, j2: int| 0 <= j1 < j2 < kept@.len() ==> kept@[j1] < kept@[j2],
            forall|k: int|
                0 <= k < i && #[trigger] paths@[k] is Some && exists@[k] ==> kept@.contains(
                    k as usize,
                ),
        decreases paths@.len() - i,
    {
        if paths[i].is_some() && exists[i] {
            let ghost before = kept@;
            kept.push(i);
            assert forall|k: int|
                0 <= k < i + 1 && #[trigger] paths@[k] is Some && exists@[k] implies kept@.contains(
                k as usize,
            ) by {
                if k < i {
                    let j = choose|j: int| 0 <= j < before.len() && before[j] == k as usize;
                    assert(kept@[j] == k as usize);
                } else {
                    assert(kept@[before.len() as int] == i);
                }
            }
        }
        i = i + 1;
    }
    kept
}

/// Cuts the `history` array down to the items at `kept`, in that order;
/// every other field stays as it was. A state without a `history` array is
/// left unchanged.
pub fn retain_history(s: &mut AppState, kept: &Vec<usize>)
    requires
        history_of(old(s)@) matches Some(items) ==> forall|j: int|
            0 <= j < kept@.len() ==> #[trigger] kept@[j] < items.len(),
    ensures
        final(s)@ == retained(old(s)@, kept@),
{
    let ghost doc = s@;
    let mut remaining: Vec<serde_json::Value> = Vec::new();
    {
        let history = match json_get(&s.value, "history") {
            Some(h) => h,
            None => return,
        };
        let items = match json_items(history) {
            Some(v) => v,
            None => return,
        };
        let ghost docs = docs_of(items@);
        assert(history_of(doc) == Some(docs));
        let mut j: usize = 0;
        while j < kept.len()
            invariant
                j <= kept@.len(),
                docs == docs_of(items@),
                forall|t: int| 0 <= t < kept@.len() ==> #[trigger] kept@[t] < docs.len(),
                remaining@.len() == j,
                forall|t: int|
                    0 <= t < j ==> json_of(#[trigger] remaining@[t]) == docs[kept@[t] as int],
            decreases kept@.len() - j,
        {
            let k = kept[j];
            assert(docs[k as int] == json_of(items@[k as int]));
            remaining.push(json_clone(&items[k]));
            j = j + 1;
        }
        assert(docs_of(remaining@) =~= kept@.map_values(|k: usize| docs[k as int]));
    }
    json_set(&mut s.value, "history", json_array(remaining));
}

/// Empties the `history` array, keeping every other field, and says
/// whether it could: only an object (or `null`, which becomes one) has
/// fields; any other state is left as it was.
pub fn clear_history_of(s: &mut AppState) -> (cleared: bool)
    ensures
        cleared == (old(s)@ is Object || old(s)@ is Null),
        cleared ==> final(s)@ == history_cleared(old(s)@),
        !cleared ==> final(s)@ == old(s)@,
{
    if json_is_object(&s.value) || json_is_null(&s.value) {
        json_set(&mut s.value, "history", json_array(Vec::new()));
        proof {
            assert(docs_of(Seq::<serde_json::Value>::empty()) =~= Seq::<JsonView>::empty());
        }
        true
    } else {
        false
    }
}

/// After clearing, the history is an empty array, whatever the state held.
pub proof fn law_cleared_history_is_empty(doc: JsonView)
    ensures
        history_of(history_cleared(doc)) == Some(Seq::<JsonView>::empty()),
        forall|key: Seq<char>|
            key != "history"@ && #[trigger] fields_of(doc).dom().contains(key) ==> field_of(
                history_cleared(doc),
                key,
            ) == Some(fields_of(doc)[key]),
{
}

/// Loading keeps exactly the history items whose path names an existing
/// file, in their order: cutting the history down to the positions that
/// `kept_history` lists leaves items that each have a path whose file
/// exists, one for each such item before.
pub proof fn law_loaded_history_exists(
    doc: JsonView,
    paths: Seq<Option<String>>,
    exists: Seq<bool>,
    kept: Seq<usize>,
)
    requires
        history_of(doc) is Some,
        path_texts(paths) == history_of(doc)->0.map_values(|item: JsonView| path_of(item)),
        paths.len() == exists.len(),
        lists_kept(kept, paths, exists),
    ensures
        history_of(retained(doc, kept)) matches Some(items) && items.len() == kept.len() && (
        forall|j: int|
            0 <= j < items.len() ==> #[trigger] path_of(items[j]) is Some && exists[kept[j] as int]
                && items[j] == history_of(doc)->0[kept[j] as int]),
{
    let old_items = history_of(doc)->0;
    let new_items = kept.map_values(|k: usize| old_items[k as int]);
    assert(field_of(retained(doc, kept), "history"@) == Some(JsonView::Array(new_items)));
    assert forall|j: int| 0 <= j < new_items.len() implies #[trigger] path_of(new_items[j]) is Some
        && exists[kept[j] as int] && new_items[j] == old_items[kept[j] as int] by {
        let k = kept[j] as int;
        assert(path_texts(paths).len() == paths.len());
        assert(old_items.map_values(|item: JsonView| path_of(item)).len() == old_items.len());
        assert(0 <= k < paths.len());
        assert(paths[k] is Some);
        assert(path_texts(paths)[k] == old_items.map_values(|item: JsonView| path_of(item))[k]);
        assert(path_texts(paths)[k] == path_of(old_items[k]));
    }
}

} // verus!
