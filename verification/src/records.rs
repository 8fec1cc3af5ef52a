//! How tasks and time entries are prepared before the store writes them:
//! cleaned input, derived ids, timers started and stopped.

use vstd::prelude::*;
use vstd::utf8::{encode_utf8, encode_utf8_decode_utf8};
use crate::error::TrackerError;
use crate::model::{Task, TimeEntry};
use crate::time::Timestamp;
use crate::text::{bytes_less, bytes_lt, contains_control, has_control, lemma_bytes_lt_total, lowercase, owned, push_str, to_lowercase, trim, trim_spec};

verus! {

/// A tag as it is stored: trimmed, then lowercased.
pub open spec fn cleaned_tag(tag: Seq<char>) -> Seq<char> {
    lowercase(trim_spec(tag))
}

/// The stored tags are listed strictly increasing in byte order (so without
/// repeats).
pub open spec fn strictly_sorted(tags: Seq<Seq<char>>) -> bool {
    forall|i: int, j: int| 0 <= i < j < tags.len() ==> bytes_lt(encode_utf8(#[trigger] tags[i]), encode_utf8(#[trigger] tags[j]))
}

/// A tag that is kept: something is left of it once trimmed.
pub open spec fn kept_tag(tag: Seq<char>) -> bool {
    trim_spec(tag).len() > 0
}

/// `value` is the cleaned form of one of the given tags that is kept, and is
/// not empty.
pub open spec fn is_cleaned_tag_of(tags: Seq<Seq<char>>, value: Seq<char>) -> bool {
    value.len() > 0 && exists|i: int| 0 <= i < tags.len() && kept_tag(tags[i]) && value == cleaned_tag(#[trigger] tags[i])
}

/// A required text value without surrounding white space; refused when
/// nothing is left. `label` names the value in the error.
pub fn cleaned_required(label: &str, value: &str) -> (res: Result<String, TrackerError>)
    ensures
        res is Ok <==> trim_spec(value@).len() > 0,
        res matches Ok(s) ==> s@ == trim_spec(value@),
        res matches Err(e) ==> e matches TrackerError::EmptyValue { label: l } && l@ == label@,
{
    let value = trim(value);
    if value.unicode_len() == 0 {
        return Err(TrackerError::EmptyValue { label: owned(label) });
    }
    Ok(owned(value))
}

/// An optional text value without surrounding white space; `None` when it is
/// absent or nothing is left.
pub fn cleaned_optional(value: Option<&str>) -> (res: Option<String>)
    ensures
        res is Some <==> (value matches Some(v) && trim_spec(v@).len() > 0),
        res matches Some(s) ==> s@ == trim_spec(value->Some_0@),
{
    match value {
        None => None,
        Some(v) => {
            let t = trim(v);
            if t.unicode_len() == 0 {
                None
            } else {
                Some(owned(t))
            }
        },
    }
}

/// `out` lists the given tags as stored: each trimmed and lowercased, those
/// with nothing left once trimmed dropped, sorted in byte order without
/// repeats.
pub open spec fn normalizes(tags: Seq<Seq<char>>, out: Seq<Seq<char>>) -> bool {
    &&& strictly_sorted(out)
    &&& forall|k: int| 0 <= k < out.len() ==> is_cleaned_tag_of(tags, #[trigger] out[k])
    &&& forall|i: int| 0 <= i < tags.len() && kept_tag(#[trigger] tags[i])
            ==> out.contains(cleaned_tag(tags[i]))
}

/// The tags as stored: each trimmed and lowercased, empty ones dropped, then
/// sorted in byte order without repeats.
pub fn normalized_tags(tags: &[String]) -> (res: Vec<String>)
    ensures
        normalizes(tags.deep_view(), res.deep_view()),
{
    let ghost input = tags.deep_view();
    let mut out: Vec<String> = Vec::new();
    let mut i: usize = 0;
    while i < tags.len()
        invariant
            i <= tags.len(),
            input == tags.deep_view(),
            strictly_sorted(out.deep_view()),
            forall|k: int| 0 <= k < out.len() ==> is_cleaned_tag_of(input, #[trigger] out.deep_view()[k]),
            forall|j: int| 0 <= j < i && kept_tag(#[trigger] input[j])
                ==> out.deep_view().contains(cleaned_tag(input[j])),
        decreases tags.len() - i,
    {
        let tag = to_lowercase(trim(tags[i].as_str()));
        assert(tag@ == cleaned_tag(input[i as int]));
        assert(tag@.len() > 0 <==> kept_tag(input[i as int]));
        if tag.as_str().unicode_len() > 0 {
            let ghost before = out.deep_view();
            // find the first stored tag that does not come before this one
            let mut p: usize = 0;
            while p < out.len() && bytes_less(out[p].as_str().as_bytes(), tag.as_str().as_bytes())
                invariant
                    p <= out.len(),
                    before == out.deep_view(),
                    forall|k: int| 0 <= k < p ==> bytes_lt(encode_utf8(#[trigger] before[k]), encode_utf8(tag@)),
                decreases out.len() - p,
            {
                p = p + 1;
            }
            if p < out.len() && out[p] == tag {
                assert(out.deep_view()[p as int] == tag@);
            } else {
                proof {
                    if p < out.len() {
                        // the stored tag at p differs from the new one and does not come before it
                        if encode_utf8(before[p as int]) == encode_utf8(tag@) {
                            encode_utf8_decode_utf8(before[p as int]);
                            encode_utf8_decode_utf8(tag@);
                        }
                        lemma_bytes_lt_total(encode_utf8(before[p as int]), encode_utf8(tag@));
                    }
                }
                out.insert(p, tag);
                proof {
                    let after = out.deep_view();
                    assert(after =~= before.insert(p as int, tag@));
                    assert forall|a: int, b: int| 0 <= a < b < after.len() implies bytes_lt(encode_utf8(#[trigger] after[a]), encode_utf8(#[trigger] after[b])) by {
                        if b < p {
                        } else if a < p && b == p {
                        } else if a < p && b > p {
                            assert(after[b] == before[b - 1]);
                            if b - 1 > p {
                                assert(bytes_lt(encode_utf8(before[p as int]), encode_utf8(before[b - 1])));
                                crate::text::lemma_bytes_lt_transitive(encode_utf8(before[a]), encode_utf8(tag@), encode_utf8(before[p as int]));
                                crate::text::lemma_bytes_lt_transitive(encode_utf8(before[a]), encode_utf8(before[p as int]), encode_utf8(before[b - 1]));
                            } else {
                                crate::text::lemma_bytes_lt_transitive(encode_utf8(before[a]), encode_utf8(tag@), encode_utf8(before[p as int]));
                            }
                        } else if a == p {
                            assert(after[b] == before[b - 1]);
                            if b - 1 > p {
                                crate::text::lemma_bytes_lt_transitive(encode_utf8(tag@), encode_utf8(before[p as int]), encode_utf8(before[b - 1]));
                            }
                        } else {
                            assert(after[a] == before[a - 1]);
                            assert(after[b] == before[b - 1]);
                        }
                    }
                    assert forall|k: int| 0 <= k < after.len() implies is_cleaned_tag_of(input, #[trigger] after[k]) by {
                        if k < p {
                            assert(after[k] == before[k]);
                        } else if k > p {
                            assert(after[k] == before[k - 1]);
                        } else {
                            assert(after[k] == cleaned_tag(input[i as int]));
                        }
                    }
                    assert forall|j: int| 0 <= j < i + 1 && kept_tag(#[trigger] input[j])
                        implies after.contains(cleaned_tag(input[j])) by {
                        if j < i {
                            let w = choose|w: int| 0 <= w < before.len() && before[w] == cleaned_tag(input[j]);
                            if w < p {
                                assert(after[w] == before[w]);
                            } else {
                                assert(after[w + 1] == before[w]);
                            }
                        } else {
                            assert(after[p as int] == tag@);
                        }
                    }
                }
            }
        }
        i = i + 1;
    }
    out
}

/// Two tag lists in strictly increasing byte order that hold the same tags
/// are the same list.
proof fn lemma_sorted_same_elements(x: Seq<Seq<char>>, y: Seq<Seq<char>>)
    requires
        strictly_sorted(x),
        strictly_sorted(y),
        forall|v: Seq<char>| x.contains(v) <==> y.contains(v),
    ensures
        x == y,
    decreases x.len(),
{
    if x.len() == 0 {
        if y.len() > 0 {
            assert(y.contains(y[0]));
        }
        assert(x =~= y);
    } else {
        assert(x.contains(x[0]));
        let j = choose|j: int| 0 <= j < y.len() && y[j] == x[0];
        if x[0] != y[0] {
            assert(y.contains(y[0]));
            let i = choose|i: int| 0 <= i < x.len() && x[i] == y[0];
            assert(j > 0 && i > 0);
            assert(bytes_lt(encode_utf8(y[0]), encode_utf8(y[j])));
            assert(bytes_lt(encode_utf8(x[0]), encode_utf8(x[i])));
            crate::text::lemma_bytes_lt_asymmetric(encode_utf8(x[0]), encode_utf8(y[0]));
        }
        let xs = x.skip(1);
        let ys = y.skip(1);
        assert forall|v: Seq<char>| xs.contains(v) implies ys.contains(v) by {
            let k = choose|k: int| 0 <= k < xs.len() && xs[k] == v;
            assert(x[k + 1] == v);
            assert(bytes_lt(encode_utf8(x[0]), encode_utf8(x[k + 1])));
            crate::text::lemma_bytes_lt_irreflexive(encode_utf8(v));
            assert(y.contains(v));
            let m = choose|m: int| 0 <= m < y.len() && y[m] == v;
            assert(m > 0);
            assert(ys[m - 1] == v);
        }
        assert forall|v: Seq<char>| ys.contains(v) implies xs.contains(v) by {
            let k = choose|k: int| 0 <= k < ys.len() && ys[k] == v;
            assert(y[k + 1] == v);
            assert(bytes_lt(encode_utf8(y[0]), encode_utf8(y[k + 1])));
            crate::text::lemma_bytes_lt_irreflexive(encode_utf8(v));
            assert(x.contains(v));
            let m = choose|m: int| 0 <= m < x.len() && x[m] == v;
            assert(m > 0);
            assert(xs[m - 1] == v);
        }
        assert(strictly_sorted(xs)) by {
            assert forall|a: int, b: int| 0 <= a < b < xs.len() implies
                bytes_lt(encode_utf8(#[trigger] xs[a]), encode_utf8(#[trigger] xs[b])) by {
                assert(xs[a] == x[a + 1] && xs[b] == x[b + 1]);
            }
        }
        assert(strictly_sorted(ys)) by {
            assert forall|a: int, b: int| 0 <= a < b < ys.len() implies
                bytes_lt(encode_utf8(#[trigger] ys[a]), encode_utf8(#[trigger] ys[b])) by {
                assert(ys[a] == y[a + 1] && ys[b] == y[b + 1]);
            }
        }
        lemma_sorted_same_elements(xs, ys);
        assert(x =~= seq![x[0]] + xs);
        assert(y =~= seq![y[0]] + ys);
    }
}

/// The stored tags depend only on which tags are given, not on their order
/// or on repeats: two lists that hold the same tags normalize to the same
/// list. (With `a == b`, the normalized list of a list is unique.)
pub proof fn lemma_normalized_tags_order_free(a: Seq<Seq<char>>, b: Seq<Seq<char>>, x: Seq<Seq<char>>, y: Seq<Seq<char>>)
    requires
        forall|t: Seq<char>| a.contains(t) <==> b.contains(t),
        normalizes(a, x),
        normalizes(b, y),
    ensures
        x == y,
{
    assert forall|v: Seq<char>| x.contains(v) implies y.contains(v) by {
        let k = choose|k: int| 0 <= k < x.len() && x[k] == v;
        assert(is_cleaned_tag_of(a, x[k]));
        let i = choose|i: int| 0 <= i < a.len() && kept_tag(a[i]) && v == cleaned_tag(#[trigger] a[i]);
        assert(a.contains(a[i]));
        let j = choose|j: int| 0 <= j < b.len() && b[j] == a[i];
        assert(cleaned_tag(b[j]) == v);
    }
    assert forall|v: Seq<char>| y.contains(v) implies x.contains(v) by {
        let k = choose|k: int| 0 <= k < y.len() && y[k] == v;
        assert(is_cleaned_tag_of(b, y[k]));
        let i = choose|i: int| 0 <= i < b.len() && kept_tag(b[i]) && v == cleaned_tag(#[trigger] b[i]);
        assert(b.contains(b[i]));
        let j = choose|j: int| 0 <= j < a.len() && a[j] == b[i];
        assert(cleaned_tag(a[j]) == v);
    }
    lemma_sorted_same_elements(x, y);
}

/// `value` is one of the given tags, trimmed and lowercased, that has
/// something left once trimmed.
pub open spec fn trimmed_lowercased_of(tags: Seq<Seq<char>>, value: Seq<char>) -> bool {
    exists|i: int| 0 <= i < tags.len() && trim_spec(#[trigger] tags[i]).len() > 0 && value == lowercase(trim_spec(tags[i]))
}

/// What the stored tags hold: every given tag with something left once
/// trimmed appears trimmed and lowercased, and nothing else appears; a tag is
/// dropped only when nothing is left of it once trimmed.
pub proof fn lemma_normalized_tags_content(tags: Seq<Seq<char>>, out: Seq<Seq<char>>)
    requires
        normalizes(tags, out),
    ensures
        forall|i: int| 0 <= i < tags.len() && trim_spec(#[trigger] tags[i]).len() > 0
            ==> out.contains(lowercase(trim_spec(tags[i]))),
        forall|k: int| 0 <= k < out.len() ==> trimmed_lowercased_of(tags, #[trigger] out[k]),
{
    assert forall|i: int| 0 <= i < tags.len() && trim_spec(#[trigger] tags[i]).len() > 0
        implies out.contains(lowercase(trim_spec(tags[i]))) by {
        assert(kept_tag(tags[i]));
    }
    assert forall|k: int| 0 <= k < out.len() implies trimmed_lowercased_of(tags, #[trigger] out[k]) by {
        assert(is_cleaned_tag_of(tags, out[k]));
        let i = choose|i: int| 0 <= i < tags.len() && kept_tag(tags[i]) && out[k] == cleaned_tag(#[trigger] tags[i]);
        assert(trim_spec(tags[i]).len() > 0);
    }
}

/// Normalizing stored tags again gives them back, for stored tags that are
/// trimmed and that lowercasing leaves as they are.
pub proof fn lemma_normalized_tags_stable(a: Seq<Seq<char>>, x: Seq<Seq<char>>, y: Seq<Seq<char>>)
    requires
        normalizes(a, x),
        forall|k: int| 0 <= k < x.len() ==> trim_spec(#[trigger] x[k]) == x[k] && lowercase(x[k]) == x[k],
        normalizes(x, y),
    ensures
        y == x,
{
    assert(normalizes(x, x)) by {
        assert forall|k: int| 0 <= k < x.len() implies is_cleaned_tag_of(x, #[trigger] x[k]) by {
            assert(is_cleaned_tag_of(a, x[k]));
            assert(trim_spec(x[k]) == x[k]);
            assert(cleaned_tag(x[k]) == x[k]);
            assert(kept_tag(x[k]));
        }
        assert forall|i: int| 0 <= i < x.len() && kept_tag(#[trigger] x[i])
            implies x.contains(cleaned_tag(x[i])) by {
            assert(trim_spec(x[i]) == x[i]);
            assert(x[i] == cleaned_tag(x[i]));
        }
    }
    lemma_normalized_tags_order_free(x, x, y, x);
}


/// The view of an optional text.
pub open spec fn opt_view(value: Option<&str>) -> Option<Seq<char>> {
    match value {
        Some(v) => Some(v@),
        None => None,
    }
}

/// The view of an optional owned text.
pub open spec fn opt_string_view(value: Option<String>) -> Option<Seq<char>> {
    match value {
        Some(v) => Some(v@),
        None => None,
    }
}

/// What `cleaned_optional` keeps of an optional value.
pub open spec fn cleaned_optional_spec(value: Option<Seq<char>>) -> Option<Seq<char>> {
    match value {
        Some(v) => if trim_spec(v).len() > 0 { Some(trim_spec(v)) } else { None },
        None => None,
    }
}

/// The text from which a task's id is derived: a fixed URL prefix followed by
/// the task name, trimmed and lowercased.
pub open spec fn task_id_text(name: Seq<char>) -> Seq<char> {
    "https://github.com/EasternKentuckyDigital/tracker/task/"@ + lowercase(trim_spec(name))
}

/// Name for the hyphenated lowercase text of
/// `uuid::Uuid::new_v5(&Uuid::NAMESPACE_URL, name)` for the bytes `name`.
pub uninterp spec fn uuid_v5_url(name: Seq<u8>) -> Seq<char>;

/// The id of the task with this name.
pub open spec fn task_id_spec(name: Seq<char>) -> Seq<char> {
    uuid_v5_url(encode_utf8(task_id_text(name)))
}

/// `uuid::Uuid::new_v5` in the URL namespace, over the UTF-8 bytes of the
/// text, written with `to_string`. Claims the named result, and the length of
/// the hyphenated form that uuid documents.
#[verifier::external_body]
fn uuid_v5_url_of(text: &str) -> (res: String)
    ensures
        res@ == uuid_v5_url(encode_utf8(text@)),
        res@.len() == 36,
{
    uuid::Uuid::new_v5(&uuid::Uuid::NAMESPACE_URL, text.as_bytes()).to_string()
}

/// The id of the task with this name: a name-based UUID of the trimmed,
/// lowercased name, so that devices that create the same task offline agree.
pub fn task_id(name: &str) -> (res: String)
    ensures
        res@ == task_id_spec(name@),
{
    let normalized = to_lowercase(trim(name));
    let mut text = owned("https://github.com/EasternKentuckyDigital/tracker/task/");
    push_str(&mut text, normalized.as_str());
    uuid_v5_url_of(text.as_str())
}

/// Two names that are equal once trimmed and lowercased give the same task
/// id, so devices that create the same task offline converge on one record.
pub proof fn lemma_task_id_by_normalized_name(a: Seq<char>, b: Seq<char>)
    requires
        lowercase(trim_spec(a)) == lowercase(trim_spec(b)),
    ensures
        task_id_spec(a) == task_id_spec(b),
{
}

#[verifier::external_type_specification]
#[verifier::external_body]
pub struct ExJsonError(serde_json::Error);

/// Name for the JSON text that `serde_json::to_string` writes for a list of
/// strings.
pub uninterp spec fn json_string_array(items: Seq<Seq<char>>) -> Seq<char>;

/// Name for what `serde_json::from_str::<Vec<String>>` reads from a text:
/// `None` when it fails.
pub uninterp spec fn json_parse_string_array(text: Seq<char>) -> Option<Seq<Seq<char>>>;

/// `serde_json::to_string` on a list of strings. Claims that it succeeds
/// (serde_json documents failure only for a failing `Serialize` impl or a map
/// with non-string keys, neither of which a list of strings has) and that the
/// text is the named one.
#[verifier::external_body]
fn json_write_strings(items: &[String]) -> (res: Result<String, serde_json::Error>)
    ensures
        res is Ok,
        res matches Ok(text) ==> text@ == json_string_array(items.deep_view()),
{
    serde_json::to_string(items)
}

/// `serde_json::from_str::<Vec<String>>`. Claims the named result.
#[verifier::external_body]
fn json_read_strings(text: &str) -> (res: Option<Vec<String>>)
    ensures
        res is Some <==> json_parse_string_array(text@) is Some,
        res matches Some(v) ==> json_parse_string_array(text@) == Some(v.deep_view()),
{
    match serde_json::from_str::<Vec<String>>(text) {
        Ok(items) => Some(items),
        Err(_) => None,
    }
}

/// The stored form of a list of tags: a JSON array of strings.
pub fn encode_tags(tags: &[String]) -> (res: Result<String, TrackerError>)
    ensures
        res is Ok,
        res matches Ok(text) ==> text@ == json_string_array(tags.deep_view()),
        res matches Err(e) ==> e is TagEncoding,
{
    match json_write_strings(tags) {
        Ok(text) => Ok(text),
        Err(_) => Err(TrackerError::TagEncoding),
    }
}

/// The tags stored as a JSON array of strings; no tags when the text is not
/// one.
pub fn decode_tags(value: &str) -> (res: Vec<String>)
    ensures
        res.deep_view() == match json_parse_string_array(value@) {
            Some(items) => items,
            None => Seq::<Seq<char>>::empty(),
        },
{
    match json_read_strings(value) {
        Some(items) => items,
        None => {
            let empty: Vec<String> = Vec::new();
            assert(empty.deep_view() =~= Seq::<Seq<char>>::empty());
            empty
        },
    }
}

/// A task's name, project and tags as the user gave them, cleaned for
/// storage.
pub struct TaskDraft {
    pub name: String,
    pub project: Option<String>,
    pub tags: Vec<String>,
}

/// Why a task's name, project and tags are refused, in the order they are
/// checked: an empty name, then a control character in the (trimmed) name,
/// project or any tag; `None` when they are accepted.
pub open spec fn draft_refusal(name: Seq<char>, project: Option<Seq<char>>, tags: Seq<Seq<char>>) -> Option<(bool, Seq<char>)> {
    if trim_spec(name).len() == 0 {
        Some((false, "task name"@))
    } else if has_control(trim_spec(name)) {
        Some((true, "task name"@))
    } else if project matches Some(p) && has_control(trim_spec(p)) {
        Some((true, "project"@))
    } else if exists|i: int| 0 <= i < tags.len() && has_control(trim_spec(#[trigger] tags[i])) {
        Some((true, "tag"@))
    } else {
        None
    }
}

impl TaskDraft {
    /// Cleans a task's name (required), project and tags; refused when the
    /// name is empty or a value holds a control character.
    pub fn new(name: &str, project: Option<&str>, tags: &[String]) -> (res: Result<TaskDraft, TrackerError>)
        ensures
            res is Ok <==> draft_refusal(name@, opt_view(project), tags.deep_view()) is None,
            res matches Ok(d) ==> {
                &&& d.name@ == trim_spec(name@)
                &&& opt_string_view(d.project) == cleaned_optional_spec(opt_view(project))
                &&& normalizes(tags.deep_view(), d.tags.deep_view())
            },
            res matches Err(e) ==> match draft_refusal(name@, opt_view(project), tags.deep_view()) {
                Some((false, label)) => e matches TrackerError::EmptyValue { label: l } && l@ == label,
                Some((true, label)) => e matches TrackerError::ControlCharacter { label: l } && l@ == label,
                None => false,
            },
    {
        let cleaned_name = cleaned_required("task name", name)?;
        if contains_control(cleaned_name.as_str()) {
            return Err(TrackerError::ControlCharacter { label: owned("task name") });
        }
        if let Some(p) = project {
            if contains_control(trim(p)) {
                return Err(TrackerError::ControlCharacter { label: owned("project") });
            }
        }
        let mut i: usize = 0;
        while i < tags.len()
            invariant
                i <= tags.len(),
                forall|k: int| 0 <= k < i ==> !has_control(trim_spec(#[trigger] tags.deep_view()[k])),
                trim_spec(name@).len() > 0,
                !has_control(trim_spec(name@)),
                !(opt_view(project) matches Some(p) && has_control(trim_spec(p))),
            decreases tags.len() - i,
        {
            if contains_control(trim(tags[i].as_str())) {
                assert(has_control(trim_spec(tags.deep_view()[i as int])));
                return Err(TrackerError::ControlCharacter { label: owned("tag") });
            }
            i = i + 1;
        }
        let project = cleaned_optional(project);
        let tags = normalized_tags(tags);
        Ok(TaskDraft { name: cleaned_name, project, tags })
    }
}

/// The task that saving a draft writes: the existing task with the same name
/// updated in place, or else a new one.
pub fn saved_task(draft: TaskDraft, existing: Option<Task>, now: Timestamp, device_id: String) -> (res: Task)
    ensures
        opt_string_view(res.project) == opt_string_view(draft.project),
        res.tags.deep_view() == draft.tags.deep_view(),
        res.updated_at == now,
        res.source_device@ == device_id@,
        !res.deleted,
        existing matches Some(e) ==> {
            &&& res.id@ == e.id@
            &&& res.name@ == e.name@
            &&& res.created_at == e.created_at
        },
        existing is None ==> {
            &&& res.id@ == task_id_spec(draft.name@)
            &&& res.name@ == draft.name@
            &&& res.created_at == now
        },
{
    match existing {
        Some(task) => {
            Task {
                id: task.id,
                name: task.name,
                project: draft.project,
                tags: draft.tags,
                created_at: task.created_at,
                updated_at: now,
                source_device: device_id,
                deleted: false,
            }
        },
        None => {
            let id = task_id(draft.name.as_str());
            Task {
                id,
                name: draft.name,
                project: draft.project,
                tags: draft.tags,
                created_at: now,
                updated_at: now,
                source_device: device_id,
                deleted: false,
            }
        },
    }
}

/// Which task a new timer is for.
pub enum StartPlan {
    /// The saved task of that name, as it is.
    Reuse(Task),
    /// The task saved (created or updated) from the name, project and tags given.
    Save,
}

/// Decides how to start a timer: refused while one is running; otherwise a
/// known task is reused as it is when no project or tags are given, and saved
/// from the input in every other case.
pub fn start_plan(active: Option<&TimeEntry>, known: Option<Task>, project: Option<&str>, tags: &[String]) -> (res: Result<StartPlan, TrackerError>)
    ensures
        res is Err <==> active is Some,
        res matches Err(e) ==> e matches TrackerError::AlreadyTracking { task_name, started_at }
            && task_name@ == active->Some_0.task_name@ && started_at == active->Some_0.started_at,
        res matches Ok(StartPlan::Reuse(t)) ==> known == Some(t) && project is None && tags.len() == 0,
        res matches Ok(StartPlan::Save) ==> !(known is Some && project is None && tags.len() == 0),
{
    if let Some(entry) = active {
        return Err(TrackerError::AlreadyTracking {
            task_name: entry.task_name.clone(),
            started_at: entry.started_at,
        });
    }
    match known {
        Some(task) => {
            if project.is_none() && tags.len() == 0 {
                Ok(StartPlan::Reuse(task))
            } else {
                Ok(StartPlan::Save)
            }
        },
        None => Ok(StartPlan::Save),
    }
}

/// A running entry for a task, started now: it copies the task's id, name,
/// project and tags.
pub fn new_entry(id: String, task: Task, now: Timestamp, device_id: String) -> (res: TimeEntry)
    ensures
        res.id == id,
        res.task_id == task.id,
        res.task_name == task.name,
        res.project == task.project,
        res.tags == task.tags,
        res.started_at == now,
        res.stopped_at is None,
        res.updated_at == now,
        res.source_device == device_id,
        !res.deleted,
{
    TimeEntry {
        id,
        task_id: task.id,
        task_name: task.name,
        project: task.project,
        tags: task.tags,
        started_at: now,
        stopped_at: None,
        updated_at: now,
        source_device: device_id,
        deleted: false,
    }
}

/// `after` is `before` stopped at `now` by the device: everything else kept.
pub open spec fn stopped_copy(before: TimeEntry, after: TimeEntry, now: Timestamp, device: Seq<char>) -> bool {
    &&& after.id == before.id
    &&& after.task_id == before.task_id
    &&& after.task_name == before.task_name
    &&& after.project == before.project
    &&& after.tags == before.tags
    &&& after.started_at == before.started_at
    &&& after.stopped_at == Some(now)
    &&& after.updated_at == now
    &&& after.source_device@ == device
    &&& after.deleted == before.deleted
}

/// Stops every running entry at once (more than one runs only after offline
/// devices started timers concurrently); refused when none is running.
pub fn stopped_entries(entries: Vec<TimeEntry>, now: Timestamp, device_id: &str) -> (res: Result<Vec<TimeEntry>, TrackerError>)
    ensures
        res is Err <==> entries.len() == 0,
        res matches Err(e) ==> e is NoTimerRunning,
        res matches Ok(v) ==> v.len() == entries.len()
            && forall|i: int| 0 <= i < v.len() ==> stopped_copy(entries[i], #[trigger] v[i], now, device_id@),
{
    if entries.len() == 0 {
        return Err(TrackerError::NoTimerRunning);
    }
    let ghost original = entries@;
    let mut rest = entries;
    let mut out: Vec<TimeEntry> = Vec::new();
    while rest.len() > 0
        invariant
            out.len() + rest.len() == original.len(),
            rest@ == original.skip(out.len() as int),
            forall|k: int| 0 <= k < out.len() ==> stopped_copy(original[k], #[trigger] out[k], now, device_id@),
        decreases rest.len(),
    {
        let e = rest.remove(0);
        assert(e == original[out.len() as int]);
        out.push(TimeEntry {
            id: e.id,
            task_id: e.task_id,
            task_name: e.task_name,
            project: e.project,
            tags: e.tags,
            started_at: e.started_at,
            stopped_at: Some(now),
            updated_at: now,
            source_device: owned(device_id),
            deleted: e.deleted,
        });
        assert(rest@ =~= original.skip(out.len() as int));
    }
    Ok(out)
}

} // verus!
