//! niri IPC events: the JSON value model, decoding of one `event-stream` line into an
//! event (unknown shapes fall through to `Other`), and the focused window of a snapshot.
use vstd::prelude::*;
use crate::text::str_eq;

verus! {

/// A JSON value as far as event decoding reads it. A number is kept as the non-negative
/// integer it denotes, or `None` when it is negative or not an integer.
#[derive(Debug)]
pub enum JsonValue {
    Null,
    Bool(bool),
    Number(Option<u64>),
    String(String),
    Array(Vec<JsonValue>),
    /// Members in order; keys are distinct in parsed input.
    Object(Vec<(String, JsonValue)>),
}

/// A niri window as listed in `WindowsChanged` and in the windows snapshot.
#[derive(Debug, Clone)]
pub struct NiriWindow {
    pub id: u64,
    pub title: String,
    pub app_id: String,
    pub pid: u32,
    pub workspace_id: Option<u64>,
    pub is_focused: bool,
}

/// One decoded `event-stream` event; everything not matched exactly is `Other`.
#[derive(Debug, Clone)]
pub enum NiriEvent {
    WindowFocusChanged { id: u64 },
    WindowFocusTimestampChanged { id: u64 },
    WorkspaceActiveWindowChanged { workspace_id: u64, active_window_id: Option<u64> },
    WindowsChanged { windows: Vec<NiriWindow> },
    Other,
}

/// Why an event line was refused.
#[derive(Debug)]
pub enum NiriError {
    /// The line is not JSON.
    NotJson,
    /// The line is JSON but not an object.
    NotAnObject,
}

/// The parsed JSON value type of `serde_json`, carried through without being read.
#[verifier::external_type_specification]
#[verifier::external_body]
pub struct ExSerdeJsonValue(serde_json::Value);

/// What `serde_json::from_str::<serde_json::Value>` makes of a text, in the library's JSON
/// model (each number by `Number::as_u64`); `None` when the text is not JSON.
pub uninterp spec fn json_of(line: Seq<char>) -> Option<JsonValue>;

/// Calls `serde_json::from_str` into `serde_json::Value` and converts the value into the
/// library's JSON model. The contract claims only that the result depends on the text alone,
/// through the name `json_of`; nothing is stated of what JSON parsing gives.
#[verifier::external_body]
pub(crate) fn parse_json(line: &str) -> (r: Option<JsonValue>)
    ensures
        r == json_of(line@),
{
    match serde_json::from_str::<serde_json::Value>(line) {
        Ok(v) => Some(json_model(&v)),
        Err(_) => None,
    }
}

/// Converts a `serde_json::Value` into the library's JSON model, one arm per variant
/// (numbers through `Number::as_u64`); the conversion that `parse_json` applies. Nothing is
/// stated of its result.
#[verifier::external_body]
fn json_model(v: &serde_json::Value) -> JsonValue {
    match v {
        serde_json::Value::Null => JsonValue::Null,
        serde_json::Value::Bool(b) => JsonValue::Bool(*b),
        serde_json::Value::Number(n) => JsonValue::Number(n.as_u64()),
        serde_json::Value::String(t) => JsonValue::String(t.clone()),
        serde_json::Value::Array(a) => JsonValue::Array(a.iter().map(json_model).collect()),
        serde_json::Value::Object(m) => JsonValue::Object(m.iter().map(|(k, x)| (k.clone(), json_model(x))).collect()),
    }
}

/// The member `key` of an object's members: the first with that key.
pub open spec fn json_member(fields: Seq<(String, JsonValue)>, key: Seq<char>) -> Option<JsonValue>
    decreases fields.len(),
{
    if fields.len() == 0 {
        None
    } else if fields[0].0@ == key {
        Some(fields[0].1)
    } else {
        json_member(fields.drop_first(), key)
    }
}

/// `value.get(key)`: the member of an object, nothing for any other value.
pub open spec fn json_get(v: JsonValue, key: Seq<char>) -> Option<JsonValue> {
    match v {
        JsonValue::Object(fields) => json_member(fields@, key),
        _ => None,
    }
}

/// `as_u64`: a number that is a non-negative integer.
pub open spec fn json_as_u64(v: Option<JsonValue>) -> Option<u64> {
    match v {
        Some(JsonValue::Number(n)) => n,
        _ => None,
    }
}

/// The window fields read as by the derived deserializer: required `id` (u64), `title`,
/// `app_id` (strings) and `pid` (u32); `workspace_id` absent or null → `None`;
/// `is_focused` absent → `false`; other members ignored.
pub open spec fn window_from_fields(fields: Seq<(String, JsonValue)>) -> Option<NiriWindow> {
    let id = json_member(fields, "id"@);
    let title = json_member(fields, "title"@);
    let app_id = json_member(fields, "app_id"@);
    let pid = json_member(fields, "pid"@);
    let ws = json_member(fields, "workspace_id"@);
    let foc = json_member(fields, "is_focused"@);
    window_from_parts(id, title, app_id, pid, ws, foc)
}

/// A window from its six field values, `None` where one is missing (if required) or of the
/// wrong type.
pub open spec fn window_from_parts(
    id: Option<JsonValue>,
    title: Option<JsonValue>,
    app_id: Option<JsonValue>,
    pid: Option<JsonValue>,
    ws: Option<JsonValue>,
    foc: Option<JsonValue>,
) -> Option<NiriWindow> {
    match (id, title, app_id, pid) {
        (
            Some(JsonValue::Number(Some(i))),
            Some(JsonValue::String(t)),
            Some(JsonValue::String(a)),
            Some(JsonValue::Number(Some(p))),
        ) => {
            let ws_ok = match ws {
                None => Some(None::<u64>),
                Some(JsonValue::Null) => Some(None::<u64>),
                Some(JsonValue::Number(Some(w))) => Some(Some(w)),
                _ => None,
            };
            let foc_ok = match foc {
                None => Some(false),
                Some(JsonValue::Bool(b)) => Some(b),
                _ => None,
            };
            if p <= u32::MAX && ws_ok is Some && foc_ok is Some {
                Some(NiriWindow {
                    id: i,
                    title: t,
                    app_id: a,
                    pid: p as u32,
                    workspace_id: ws_ok->0,
                    is_focused: foc_ok->0,
                })
            } else {
                None
            }
        },
        _ => None,
    }
}

/// A window from a JSON value: an object (see `window_from_fields`) or an array holding the
/// fields in declaration order, of length 4 to 6 (missing trailing optional fields take
/// their defaults).
pub open spec fn window_from_json(v: JsonValue) -> Option<NiriWindow> {
    match v {
        JsonValue::Object(fields) => window_from_fields(fields@),
        JsonValue::Array(items) => {
            let s = items@;
            if 4 <= s.len() <= 6 {
                window_from_parts(
                    Some(s[0]),
                    Some(s[1]),
                    Some(s[2]),
                    Some(s[3]),
                    if s.len() >= 5 { Some(s[4]) } else { None },
                    if s.len() >= 6 { Some(s[5]) } else { None },
                )
            } else {
                None
            }
        },
        _ => None,
    }
}

/// All of the first `n` values decoded as windows, or `None` if one fails.
pub open spec fn windows_from_items(items: Seq<JsonValue>, n: nat) -> Option<Seq<NiriWindow>>
    decreases n,
{
    if n == 0 || n > items.len() {
        Some(Seq::empty())
    } else {
        match (windows_from_items(items, (n - 1) as nat), window_from_json(items[n - 1])) {
            (Some(ws), Some(w)) => Some(ws.push(w)),
            _ => None,
        }
    }
}

/// The window list of a `WindowsChanged` payload: its `windows` array decoded, or empty
/// when that member is missing, not an array, or holds an entry that is not a window.
pub open spec fn windows_of_payload(payload: JsonValue) -> Seq<NiriWindow> {
    match json_get(payload, "windows"@) {
        None => Seq::empty(),
        Some(JsonValue::Array(items)) => match windows_from_items(items@, items@.len()) {
            Some(ws) => ws,
            None => Seq::empty(),
        },
        Some(_) => Seq::empty(),
    }
}

/// What a line holding `v` decodes to: a non-object is refused; an object with exactly one
/// member is the event named by its key, read from its value, with missing ids as 0; any
/// other object or name is `Other`.
pub open spec fn event_matches(v: JsonValue, r: Result<NiriEvent, NiriError>) -> bool {
    match v {
        JsonValue::Object(fields) => {
            if fields@.len() != 1 {
                r matches Ok(NiriEvent::Other)
            } else {
                let tag = fields@[0].0@;
                let payload = fields@[0].1;
                let get = |k: Seq<char>| json_as_u64(json_get(payload, k));
                if tag == "WindowFocusChanged"@ {
                    r == Ok::<NiriEvent, NiriError>(NiriEvent::WindowFocusChanged {
                        id: match get("id"@) { Some(i) => i, None => 0 },
                    })
                } else if tag == "WindowFocusTimestampChanged"@ {
                    r == Ok::<NiriEvent, NiriError>(NiriEvent::WindowFocusTimestampChanged {
                        id: match get("id"@) { Some(i) => i, None => 0 },
                    })
                } else if tag == "WorkspaceActiveWindowChanged"@ {
                    r == Ok::<NiriEvent, NiriError>(NiriEvent::WorkspaceActiveWindowChanged {
                        workspace_id: match get("workspace_id"@) { Some(i) => i, None => 0 },
                        active_window_id: get("active_window_id"@),
                    })
                } else if tag == "WindowsChanged"@ {
                    r matches Ok(NiriEvent::WindowsChanged { windows }) && windows@ == windows_of_payload(payload)
                } else {
                    r matches Ok(NiriEvent::Other)
                }
            }
        },
        _ => r matches Err(NiriError::NotAnObject),
    }
}

/// The member `key` of an object's members (see `json_member`).
fn member<'a>(fields: &'a Vec<(String, JsonValue)>, key: &str) -> (r: Option<&'a JsonValue>)
    ensures
        match json_member(fields@, key@) {
            Some(v) => r matches Some(x) && *x == v,
            None => r is None,
        },
{
    let mut i: usize = 0;
    assert(fields@.subrange(0, fields@.len() as int) =~= fields@);
    while i < fields.len()
        invariant
            i <= fields@.len(),
            json_member(fields@, key@) == json_member(fields@.subrange(i as int, fields@.len() as int), key@),
        decreases fields.len() - i,
    {
        let ghost rest = fields@.subrange(i as int, fields@.len() as int);
        assert(rest.drop_first() =~= fields@.subrange(i + 1, fields@.len() as int));
        if str_eq(fields[i].0.as_str(), key) {
            return Some(&fields[i].1);
        }
        i = i + 1;
    }
    None
}

/// `payload.get(key).and_then(as_u64)`.
fn get_u64(payload: &JsonValue, key: &str) -> (r: Option<u64>)
    ensures
        r == json_as_u64(json_get(*payload, key@)),
{
    match payload {
        JsonValue::Object(fields) => match member(fields, key) {
            Some(JsonValue::Number(n)) => *n,
            _ => None,
        },
        _ => None,
    }
}

/// The value behind an optional reference.
pub open spec fn deref_opt(o: Option<&JsonValue>) -> Option<JsonValue> {
    match o {
        Some(x) => Some(*x),
        None => None,
    }
}

/// A window from its six field values (see `window_from_parts`).
fn window_from_parts_exec(
    id: Option<&JsonValue>,
    title: Option<&JsonValue>,
    app_id: Option<&JsonValue>,
    pid: Option<&JsonValue>,
    ws: Option<&JsonValue>,
    foc: Option<&JsonValue>,
) -> (r: Option<NiriWindow>)
    ensures
        r == window_from_parts(deref_opt(id), deref_opt(title), deref_opt(app_id), deref_opt(pid), deref_opt(ws), deref_opt(foc)),
{
    let i = match id {
        Some(JsonValue::Number(Some(i))) => *i,
        _ => {
            return None;
        },
    };
    let t = match title {
        Some(JsonValue::String(t)) => t,
        _ => {
            return None;
        },
    };
    let a = match app_id {
        Some(JsonValue::String(a)) => a,
        _ => {
            return None;
        },
    };
    let p = match pid {
        Some(JsonValue::Number(Some(p))) => *p,
        _ => {
            return None;
        },
    };
    let w: Option<u64> = match ws {
        None => None,
        Some(JsonValue::Null) => None,
        Some(JsonValue::Number(Some(w))) => Some(*w),
        _ => {
            return None;
        },
    };
    let f: bool = match foc {
        None => false,
        Some(JsonValue::Bool(b)) => *b,
        _ => {
            return None;
        },
    };
    if p > 0xffff_ffffu64 {
        return None;
    }
    Some(NiriWindow { id: i, title: t.clone(), app_id: a.clone(), pid: p as u32, workspace_id: w, is_focused: f })
}

/// A window from a JSON value (see `window_from_json`).
fn decode_window(v: &JsonValue) -> (r: Option<NiriWindow>)
    ensures
        r == window_from_json(*v),
{
    match v {
        JsonValue::Object(fields) => window_from_parts_exec(
            member(fields, "id"),
            member(fields, "title"),
            member(fields, "app_id"),
            member(fields, "pid"),
            member(fields, "workspace_id"),
            member(fields, "is_focused"),
        ),
        JsonValue::Array(items) => {
            let n = items.len();
            if 4 <= n && n <= 6 {
                window_from_parts_exec(
                    Some(&items[0]),
                    Some(&items[1]),
                    Some(&items[2]),
                    Some(&items[3]),
                    if n >= 5 { Some(&items[4]) } else { None },
                    if n >= 6 { Some(&items[5]) } else { None },
                )
            } else {
                None
            }
        },
        _ => None,
    }
}

/// The window list of a `WindowsChanged` payload (see `windows_of_payload`).
fn decode_windows(payload: &JsonValue) -> (r: Vec<NiriWindow>)
    ensures
        r@ == windows_of_payload(*payload),
{
    let items = match payload {
        JsonValue::Object(fields) => match member(fields, "windows") {
            Some(JsonValue::Array(items)) => items,
            _ => {
                return Vec::new();
            },
        },
        _ => {
            return Vec::new();
        },
    };
    let mut out: Vec<NiriWindow> = Vec::new();
    let mut i: usize = 0;
    while i < items.len()
        invariant
            i <= items@.len(),
            windows_from_items(items@, i as nat) == Some(out@),
            json_get(*payload, "windows"@) == Some(JsonValue::Array(*items)),
        decreases items.len() - i,
    {
        match decode_window(&items[i]) {
            Some(w) => {
                out.push(w);
            },
            None => {
                assert(windows_from_items(items@, (i + 1) as nat) is None);
                proof {
                    lemma_windows_from_items_fails(items@, (i + 1) as nat, items@.len() as nat);
                    assert(windows_from_items(items@, items@.len() as nat) is None);
                }
                let empty: Vec<NiriWindow> = Vec::new();
                assert(empty@ =~= Seq::<NiriWindow>::empty());
                return empty;
            },
        }
        i = i + 1;
    }
    out
}

/// Once a prefix fails to decode, every longer prefix fails too.
pub proof fn lemma_windows_from_items_fails(items: Seq<JsonValue>, k: nat, n: nat)
    requires
        0 < k <= n <= items.len(),
        windows_from_items(items, k) is None,
    ensures
        windows_from_items(items, n) is None,
    decreases n - k,
{
    if k < n {
        lemma_windows_from_items_fails(items, k, (n - 1) as nat);
    }
}

/// Decodes the JSON value of one `event-stream` line (see `event_matches`).
pub fn event_from_json(v: &JsonValue) -> (r: Result<NiriEvent, NiriError>)
    ensures
        event_matches(*v, r),
{
    let fields = match v {
        JsonValue::Object(fields) => fields,
        _ => {
            return Err(NiriError::NotAnObject);
        },
    };
    if fields.len() != 1 {
        return Ok(NiriEvent::Other);
    }
    let tag = fields[0].0.as_str();
    let payload = &fields[0].1;
    if str_eq(tag, "WindowFocusChanged") {
        let id = match get_u64(payload, "id") {
            Some(i) => i,
            None => 0,
        };
        Ok(NiriEvent::WindowFocusChanged { id })
    } else if str_eq(tag, "WindowFocusTimestampChanged") {
        let id = match get_u64(payload, "id") {
            Some(i) => i,
            None => 0,
        };
        Ok(NiriEvent::WindowFocusTimestampChanged { id })
    } else if str_eq(tag, "WorkspaceActiveWindowChanged") {
        let workspace_id = match get_u64(payload, "workspace_id") {
            Some(i) => i,
            None => 0,
        };
        Ok(NiriEvent::WorkspaceActiveWindowChanged {
            workspace_id,
            active_window_id: get_u64(payload, "active_window_id"),
        })
    } else if str_eq(tag, "WindowsChanged") {
        Ok(NiriEvent::WindowsChanged { windows: decode_windows(payload) })
    } else {
        Ok(NiriEvent::Other)
    }
}

/// Parses one `event-stream` line: text that is not JSON is refused, anything else is
/// decoded as `event_from_json` does (unknown shapes give `Other`, never a panic).
pub fn parse_event_line(line: &str) -> (r: Result<NiriEvent, NiriError>)
    ensures
        json_of(line@) is None ==> r matches Err(NiriError::NotJson),
        json_of(line@) matches Some(v) ==> event_matches(v, r),
{
    match parse_json(line) {
        Some(v) => event_from_json(&v),
        None => Err(NiriError::NotJson),
    }
}

/// The index of the first focused window, if any.
pub open spec fn first_focused(ws: Seq<NiriWindow>) -> Option<int>
    decreases ws.len(),
{
    if ws.len() == 0 {
        None
    } else if ws[0].is_focused {
        Some(0)
    } else {
        match first_focused(ws.drop_first()) {
            Some(i) => Some(i + 1),
            None => None,
        }
    }
}

/// The first window marked focused.
pub fn focused_window_from_json(windows: &[NiriWindow]) -> (r: Option<&NiriWindow>)
    ensures
        match first_focused(windows@) {
            Some(i) => 0 <= i < windows@.len() && (r matches Some(w) && *w == windows@[i]),
            None => r is None,
        },
{
    let mut i: usize = 0;
    while i < windows.len()
        invariant
            i <= windows@.len(),
            forall|j: int| 0 <= j < i ==> !windows@[j].is_focused,
        decreases windows.len() - i,
    {
        if windows[i].is_focused {
            proof {
                lemma_first_focused(windows@, i as int);
            }
            return Some(&windows[i]);
        }
        i = i + 1;
    }
    proof {
        lemma_first_focused_none(windows@);
    }
    None
}

/// The first focused window is at `i` when it is focused and none before it is.
proof fn lemma_first_focused(ws: Seq<NiriWindow>, i: int)
    requires
        0 <= i < ws.len(),
        ws[i].is_focused,
        forall|j: int| 0 <= j < i ==> !ws[j].is_focused,
    ensures
        first_focused(ws) == Some(i),
    decreases i,
{
    if i > 0 {
        lemma_first_focused(ws.drop_first(), i - 1);
    }
}

/// No window is focused: there is no first focused one.
proof fn lemma_first_focused_none(ws: Seq<NiriWindow>)
    requires
        forall|j: int| 0 <= j < ws.len() ==> !ws[j].is_focused,
    ensures
        first_focused(ws) is None,
    decreases ws.len(),
{
    if ws.len() > 0 {
        lemma_first_focused_none(ws.drop_first());
    }
}

/// An optional integer member: absent, null or a non-negative integer.
pub open spec fn optional_id_member(o: Option<JsonValue>) -> bool {
    match o {
        None => true,
        Some(JsonValue::Null) => true,
        Some(JsonValue::Number(Some(x))) => true,
        _ => false,
    }
}

/// An optional boolean member: absent or a boolean.
pub open spec fn optional_bool_member(o: Option<JsonValue>) -> bool {
    match o {
        None => true,
        Some(JsonValue::Bool(b)) => true,
        _ => false,
    }
}

/// A window read from a JSON object holds the members of the same names: `id` and `pid` are
/// the integers under "id" and "pid", `title` and `app_id` the strings under "title" and
/// "app_id", `workspace_id` the integer under "workspace_id" (none when absent or null) and
/// `is_focused` the boolean under "is_focused" (false when absent). Conversely, an object
/// whose members have those types gives a window.
pub proof fn lemma_window_from_object_members(fields: Seq<(String, JsonValue)>)
    ensures
        window_from_fields(fields) matches Some(w) ==> {
            &&& json_member(fields, "id"@) == Some(JsonValue::Number(Some(w.id)))
            &&& json_member(fields, "title"@) == Some(JsonValue::String(w.title))
            &&& json_member(fields, "app_id"@) == Some(JsonValue::String(w.app_id))
            &&& json_member(fields, "pid"@) == Some(JsonValue::Number(Some(w.pid as u64)))
            &&& match json_member(fields, "workspace_id"@) {
                None => w.workspace_id is None,
                Some(JsonValue::Null) => w.workspace_id is None,
                Some(v) => v == JsonValue::Number(w.workspace_id),
            }
            &&& match json_member(fields, "is_focused"@) {
                None => !w.is_focused,
                Some(v) => v == JsonValue::Bool(w.is_focused),
            }
        },
        (json_member(fields, "id"@) matches Some(JsonValue::Number(Some(iv)))
            && json_member(fields, "title"@) matches Some(JsonValue::String(tv))
            && json_member(fields, "app_id"@) matches Some(JsonValue::String(av))
            && json_member(fields, "pid"@) matches Some(JsonValue::Number(Some(pv))) && pv <= u32::MAX
            && optional_id_member(json_member(fields, "workspace_id"@))
            && optional_bool_member(json_member(fields, "is_focused"@)))
            ==> window_from_fields(fields) is Some,
{
}

/// A window read from a JSON array holds its elements in declaration order: id, title,
/// app_id, pid; and a window read from an object holds its members (see
/// `lemma_window_from_object_members`).
pub proof fn lemma_window_from_json_fields(v: JsonValue)
    ensures
        v is Array && window_from_json(v) is Some ==> {
            let s = v->Array_0@;
            let w = window_from_json(v)->0;
            &&& s[0] == JsonValue::Number(Some(w.id))
            &&& s[1] == JsonValue::String(w.title)
            &&& s[2] == JsonValue::String(w.app_id)
            &&& s[3] == JsonValue::Number(Some(w.pid as u64))
        },
        v is Object && window_from_json(v) is Some ==> {
            let w = window_from_json(v)->0;
            &&& json_member(v->Object_0@, "title"@) == Some(JsonValue::String(w.title))
            &&& json_member(v->Object_0@, "app_id"@) == Some(JsonValue::String(w.app_id))
        },
{
    match v {
        JsonValue::Object(fields) => {
            lemma_window_from_object_members(fields@);
        },
        _ => {},
    }
}

/// What a decoded line holds, in terms of the line's JSON value: a non-object is refused;
/// an object with other than one member is `Other`; a single member named
/// `WindowFocusChanged` / `WindowFocusTimestampChanged` gives that event with the integer
/// under "id" of its value (0 when there is none); `WorkspaceActiveWindowChanged` gives the
/// integers under "workspace_id" (0 when none) and "active_window_id" (none when none);
/// `WindowsChanged` gives windows; any other name is `Other`.
pub proof fn lemma_event_from_line_value(v: JsonValue, r: Result<NiriEvent, NiriError>)
    requires
        event_matches(v, r),
    ensures
        !(v is Object) ==> r matches Err(NiriError::NotAnObject),
        v is Object && v->Object_0@.len() != 1 ==> r matches Ok(NiriEvent::Other),
        v is Object && v->Object_0@.len() == 1 ==> {
            let tag = v->Object_0@[0].0@;
            let payload = v->Object_0@[0].1;
            let id = match json_get(payload, "id"@) {
                Some(JsonValue::Number(Some(i))) => i,
                _ => 0u64,
            };
            &&& tag == "WindowFocusChanged"@ ==> r == Ok::<NiriEvent, NiriError>(NiriEvent::WindowFocusChanged { id })
            &&& tag == "WindowFocusTimestampChanged"@ ==> r == Ok::<NiriEvent, NiriError>(
                NiriEvent::WindowFocusTimestampChanged { id },
            )
            &&& tag == "WorkspaceActiveWindowChanged"@ ==> (r matches Ok(
                NiriEvent::WorkspaceActiveWindowChanged { workspace_id, active_window_id },
            ) && workspace_id == (match json_get(payload, "workspace_id"@) {
                Some(JsonValue::Number(Some(i))) => i,
                _ => 0u64,
            }) && active_window_id == (match json_get(payload, "active_window_id"@) {
                Some(JsonValue::Number(Some(i))) => Some(i),
                _ => None,
            }))
            &&& tag == "WindowsChanged"@ ==> (r matches Ok(NiriEvent::WindowsChanged { .. }))
            &&& (tag != "WindowFocusChanged"@ && tag != "WindowFocusTimestampChanged"@ && tag
                != "WorkspaceActiveWindowChanged"@ && tag != "WindowsChanged"@) ==> (r matches Ok(NiriEvent::Other))
        },
{
    reveal_strlit("WindowFocusChanged");
    reveal_strlit("WindowFocusTimestampChanged");
    reveal_strlit("WorkspaceActiveWindowChanged");
    reveal_strlit("WindowsChanged");
    assert("WindowFocusChanged"@.len() == 18);
    assert("WindowFocusTimestampChanged"@.len() == 27);
    assert("WorkspaceActiveWindowChanged"@.len() == 28);
    assert("WindowsChanged"@.len() == 14);
}

} // verus!
