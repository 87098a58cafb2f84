//! JSON, as far as answers are read from it.

use vstd::prelude::*;

verus! {

/// A JSON value. Of a number it is known whether it is a whole one that is not
/// negative, and which.
#[derive(Debug)]
pub enum Json {
    Null,
    Bool(bool),
    Number(Option<u64>),
    Text(String),
    Array(Vec<Json>),
    Object(Vec<(String, Json)>),
}

/// What a JSON value says.
pub enum JsonModel {
    Null,
    Bool(bool),
    Number(Option<u64>),
    Text(Seq<char>),
    Array(Seq<JsonModel>),
    Object(Seq<(Seq<char>, JsonModel)>),
}

impl Json {
    /// What a value says.
    pub open spec fn model(self) -> JsonModel
        decreases self,
    {
        match self {
            Json::Null => JsonModel::Null,
            Json::Bool(b) => JsonModel::Bool(b),
            Json::Number(n) => JsonModel::Number(n),
            Json::Text(s) => JsonModel::Text(s@),
            Json::Array(items) => JsonModel::Array(
                Seq::new(
                    items@.len(),
                    |i: int|
                        if 0 <= i < items@.len() {
                            items@[i].model()
                        } else {
                            JsonModel::Null
                        },
                ),
            ),
            Json::Object(fields) => JsonModel::Object(
                Seq::new(
                    fields@.len(),
                    |i: int|
                        if 0 <= i < fields@.len() {
                            (fields@[i].0@, fields@[i].1.model())
                        } else {
                            (Seq::empty(), JsonModel::Null)
                        },
                ),
            ),
        }
    }
}

impl View for Json {
    type V = JsonModel;

    open spec fn view(&self) -> JsonModel {
        self.model()
    }
}

/// What a text says as JSON; nothing where it is not JSON.
pub uninterp spec fn json_of(text: Seq<char>) -> Option<JsonModel>;

/// `serde_json::from_str` to a `serde_json::Value`, which depends on the text
/// alone. Values inside a value are handed on as their own text, which says the
/// same.
#[verifier::external_body]
fn from_str(text: &str) -> (r: Option<Json>)
    ensures
        match r {
            Some(json) => json_of(text@) == Some(json@),
            None => json_of(text@) is None,
        },
{
    let inner = |v: &serde_json::Value| from_str(&v.to_string()).unwrap();
    Some(match serde_json::from_str(text).ok()? {
        serde_json::Value::Null => Json::Null,
        serde_json::Value::Bool(b) => Json::Bool(b),
        serde_json::Value::Number(n) => Json::Number(n.as_u64()),
        serde_json::Value::String(s) => Json::Text(s),
        serde_json::Value::Array(all) => Json::Array(all.iter().map(inner).collect()),
        serde_json::Value::Object(all) => {
            Json::Object(all.iter().map(|(k, v)| (k.clone(), inner(v))).collect())
        },
    })
}

/// The value of a field, where a value is an object that has it.
pub open spec fn field(json: JsonModel, name: Seq<char>) -> Option<JsonModel> {
    match json {
        JsonModel::Object(fields) => field_from(fields, name, 0),
        _ => None,
    }
}

/// The value of the first field of that name, from the `i`th on.
pub open spec fn field_from(
    fields: Seq<(Seq<char>, JsonModel)>,
    name: Seq<char>,
    i: int,
) -> Option<JsonModel>
    decreases fields.len() - i,
{
    if i < 0 || i >= fields.len() {
        None
    } else if fields[i].0 == name {
        Some(fields[i].1)
    } else {
        field_from(fields, name, i + 1)
    }
}

/// The text of a value, where it is text.
pub open spec fn text_of(json: Option<JsonModel>) -> Option<Seq<char>> {
    match json {
        Some(JsonModel::Text(s)) => Some(s),
        _ => None,
    }
}

/// The truth of a value, where it is one.
pub open spec fn truth_of(json: Option<JsonModel>) -> Option<bool> {
    match json {
        Some(JsonModel::Bool(b)) => Some(b),
        _ => None,
    }
}

/// The number of a value, where it is a whole one that is not negative.
pub open spec fn number_of(json: Option<JsonModel>) -> Option<u64> {
    match json {
        Some(JsonModel::Number(n)) => n,
        _ => None,
    }
}

/// The text of a field.
pub open spec fn text_at(json: JsonModel, name: Seq<char>) -> Option<Seq<char>> {
    text_of(field(json, name))
}

/// The truth of a field.
pub open spec fn truth_at(json: JsonModel, name: Seq<char>) -> Option<bool> {
    truth_of(field(json, name))
}

/// The number of a field.
pub open spec fn number_at(json: JsonModel, name: Seq<char>) -> Option<u64> {
    number_of(field(json, name))
}

/// The items of a value, where it is an array.
pub open spec fn items_of(json: JsonModel) -> Option<Seq<JsonModel>> {
    match json {
        JsonModel::Array(items) => Some(items),
        _ => None,
    }
}

impl Json {
    /// Reads a text as JSON.
    pub fn parse(text: &str) -> (r: Option<Json>)
        ensures
            match r {
                Some(json) => json_of(text@) == Some(json@),
                None => json_of(text@) is None,
            },
    {
        from_str(text)
    }

    /// The value of a field.
    pub fn get(&self, name: &str) -> (r: Option<&Json>)
        ensures
            match r {
                Some(json) => field(self@, name@) == Some(json@),
                None => field(self@, name@) is None,
            },
    {
        if let Json::Object(fields) = self {
            proof {
                reveal_with_fuel(Json::model, 2);
            }
            let ghost all = self@->Object_0;
            let mut i: usize = 0;
            while i < fields.len()
                invariant
                    0 <= i <= fields.len(),
                    *self == Json::Object(*fields),
                    self@ == JsonModel::Object(all),
                    all.len() == fields.len(),
                    forall|j: int|
                        0 <= j < fields.len() ==> #[trigger] all[j] == (
                            fields@[j].0@,
                            fields@[j].1@,
                        ),
                    field(self@, name@) == field_from(all, name@, i as int),
                decreases fields.len() - i,
            {
                assert(all[i as int] == (fields@[i as int].0@, fields@[i as int].1@));
                if crate::text::same(fields[i].0.as_str(), name) {
                    return Some(&fields[i].1);
                }
                i = i + 1;
            }
        }
        None
    }

    /// The text of a field.
    pub fn text_at(&self, name: &str) -> (r: Option<&String>)
        ensures
            match r {
                Some(s) => text_at(self@, name@) == Some(s@),
                None => text_at(self@, name@) is None,
            },
    {
        match self.get(name) {
            Some(Json::Text(s)) => Some(s),
            _ => None,
        }
    }

    /// The truth of a field.
    pub fn truth_at(&self, name: &str) -> (r: Option<bool>)
        ensures
            r == truth_at(self@, name@),
    {
        match self.get(name) {
            Some(Json::Bool(b)) => Some(*b),
            _ => None,
        }
    }

    /// The number of a field.
    pub fn number_at(&self, name: &str) -> (r: Option<u64>)
        ensures
            r == number_at(self@, name@),
    {
        match self.get(name) {
            Some(Json::Number(n)) => *n,
            _ => None,
        }
    }
}

/// What the values of a list say.
pub open spec fn models(items: Seq<Json>) -> Seq<JsonModel> {
    Seq::new(items.len(), |i: int| items[i]@)
}

impl Json {
    /// The items of a value, where it is an array.
    pub fn items(&self) -> (r: Option<&Vec<Json>>)
        ensures
            match r {
                Some(items) => items_of(self@) == Some(models(items@)),
                None => items_of(self@) is None,
            },
    {
        if let Json::Array(items) = self {
            proof {
                reveal_with_fuel(Json::model, 2);
            }
            assert(self@->Array_0 =~= models(items@));
            Some(items)
        } else {
            None
        }
    }
}

// ---------------------------------------------------------------------------
// Fields
// ---------------------------------------------------------------------------

/// An object's field is the value that stands first under its name; an object that
/// has no such name has no such field, and neither has a value that is no object.
pub proof fn a_field_is_what_stands_under_its_name(json: JsonModel, name: Seq<char>)
    ensures
        json is Object ==> match field(json, name) {
            Some(value) => exists|i: int|
                0 <= i < json->Object_0.len() && #[trigger] json->Object_0[i] == (name, value)
                    && forall|j: int| 0 <= j < i ==> (#[trigger] json->Object_0[j]).0 != name,
            None => forall|j: int|
                0 <= j < json->Object_0.len() ==> (#[trigger] json->Object_0[j]).0 != name,
        },
        !(json is Object) ==> field(json, name) is None,
{
    if let JsonModel::Object(fields) = json {
        lemma_field_from(fields, name, 0);
    }
}

proof fn lemma_field_from(fields: Seq<(Seq<char>, JsonModel)>, name: Seq<char>, from: int)
    requires
        0 <= from,
    ensures
        match field_from(fields, name, from) {
            Some(value) => exists|i: int|
                from <= i < fields.len() && #[trigger] fields[i] == (name, value) && forall|j: int|
                    from <= j < i ==> (#[trigger] fields[j]).0 != name,
            None => forall|j: int| from <= j < fields.len() ==> (#[trigger] fields[j]).0 != name,
        },
    decreases fields.len() - from,
{
    if from < fields.len() {
        if fields[from].0 == name {
            assert(fields[from] == (name, fields[from].1));
        } else {
            lemma_field_from(fields, name, from + 1);
            if let Some(value) = field_from(fields, name, from) {
                let i = choose|i: int|
                    from + 1 <= i < fields.len() && #[trigger] fields[i] == (name, value)
                        && forall|j: int| from + 1 <= j < i ==> (#[trigger] fields[j]).0 != name;
                assert(fields[i] == (name, value));
            }
        }
    }
}

/// A field is read as what it holds: text as text, a number as that number, and the
/// truth as it is.
pub proof fn a_field_is_read_as_what_it_holds(json: JsonModel, name: Seq<char>)
    ensures
        forall|s: Seq<char>|
            text_at(json, name) == Some(s) <==> field(json, name) == Some(JsonModel::Text(s)),
        forall|n: u64|
            number_at(json, name) == Some(n) <==> field(json, name) == Some(
                JsonModel::Number(Some(n)),
            ),
        forall|b: bool|
            truth_at(json, name) == Some(b) <==> field(json, name) == Some(JsonModel::Bool(b)),
{
}

} // verus!
