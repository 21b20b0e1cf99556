//! JSON trees, as the service publishes and receives them.

use crate::double::Double;
use crate::text::same;
use vstd::prelude::*;
use vstd::string::*;

verus! {

/// A JSON value. The fields of an object stand in the order in which they were
/// put in; a reader goes by their names.
#[derive(Debug)]
pub enum Json {
    Null,
    Bool(bool),
    Int(i64),
    Uint(u64),
    Number(Double),
    Text(String),
    List(Vec<Json>),
    Object(Vec<(String, Json)>),
}

/// What a JSON value says.
pub enum JsonView {
    Null,
    Bool(bool),
    Whole(int),
    Number(Double),
    Text(Seq<char>),
    List(Seq<JsonView>),
    Object(Seq<(Seq<char>, JsonView)>),
}

/// What the items of a list say.
pub open spec fn items_view(items: Seq<Json>) -> Seq<JsonView>
    decreases items,
{
    if items.len() == 0 {
        seq![]
    } else {
        items_view(items.drop_last()).push(items.last().view())
    }
}

/// What the fields of an object say.
pub open spec fn fields_view(fields: Seq<(String, Json)>) -> Seq<(Seq<char>, JsonView)>
    decreases fields,
{
    if fields.len() == 0 {
        seq![]
    } else {
        fields_view(fields.drop_last()).push((fields.last().0@, fields.last().1.view()))
    }
}

impl Json {
    pub open spec fn view(&self) -> JsonView
        decreases self,
    {
        match self {
            Json::Null => JsonView::Null,
            Json::Bool(b) => JsonView::Bool(*b),
            Json::Int(n) => JsonView::Whole(*n as int),
            Json::Uint(n) => JsonView::Whole(*n as int),
            Json::Number(x) => JsonView::Number(*x),
            Json::Text(s) => JsonView::Text(s@),
            Json::List(items) => JsonView::List(items_view(items@)),
            Json::Object(fields) => JsonView::Object(fields_view(fields@)),
        }
    }
}


/// The value of the last field called `name`.
pub open spec fn find_field(fields: Seq<(Seq<char>, JsonView)>, name: Seq<char>) -> Option<JsonView>
    decreases fields.len(),
{
    if fields.len() == 0 {
        None
    } else if fields.last().0 == name {
        Some(fields.last().1)
    } else {
        find_field(fields.drop_last(), name)
    }
}

impl JsonView {
    /// The field called `name`, where the value is an object that has one.
    pub open spec fn field(self, name: Seq<char>) -> Option<JsonView> {
        match self {
            JsonView::Object(fields) => find_field(fields, name),
            _ => None,
        }
    }

    /// The item at `i`, where the value is a list that has one.
    pub open spec fn item(self, i: int) -> Option<JsonView> {
        match self {
            JsonView::List(items) => if 0 <= i < items.len() {
                Some(items[i])
            } else {
                None
            },
            _ => None,
        }
    }

    /// The whole number that a value is.
    pub open spec fn whole(self) -> Option<int> {
        match self {
            JsonView::Whole(n) => Some(n),
            _ => None,
        }
    }

    /// The value as a number of double precision.
    pub open spec fn number(self) -> Option<Double> {
        match self {
            JsonView::Whole(n) => Some(Double::whole(n)),
            JsonView::Number(x) => Some(x),
            _ => None,
        }
    }

    /// The text that a value is.
    pub open spec fn text(self) -> Option<Seq<char>> {
        match self {
            JsonView::Text(s) => Some(s),
            _ => None,
        }
    }

    /// A number that may be missing.
    pub open spec fn of_number(x: Option<Double>) -> JsonView {
        match x {
            Some(v) => JsonView::Number(v),
            None => JsonView::Null,
        }
    }

    /// A text that may be missing.
    pub open spec fn of_text(x: Option<Seq<char>>) -> JsonView {
        match x {
            Some(v) => JsonView::Text(v),
            None => JsonView::Null,
        }
    }
}

/// Every item of a list says what it says alone.
pub proof fn lemma_items_view(items: Seq<Json>)
    ensures
        items_view(items).len() == items.len(),
        forall|i: int| 0 <= i < items.len() ==> #[trigger] items_view(items)[i] == items[i]@,
    decreases items.len(),
{
    if items.len() > 0 {
        lemma_items_view(items.drop_last());
        assert forall|i: int| 0 <= i < items.len() implies #[trigger] items_view(items)[i]
            == items[i]@ by {
            if i < items.len() - 1 {
                assert(items_view(items)[i] == items_view(items.drop_last())[i]);
                assert(items[i] == items.drop_last()[i]);
            }
        }
    }
}

proof fn lemma_items_push(items: Seq<Json>, value: Json)
    ensures
        items_view(items.push(value)) == items_view(items).push(value@),
{
    assert(items.push(value).drop_last() =~= items);
}

pub proof fn lemma_fields_view(fields: Seq<(String, Json)>)
    ensures
        fields_view(fields).len() == fields.len(),
        forall|i: int|
            0 <= i < fields.len() ==> #[trigger] fields_view(fields)[i] == (
                fields[i].0@,
                fields[i].1@,
            ),
    decreases fields.len(),
{
    if fields.len() > 0 {
        lemma_fields_view(fields.drop_last());
        assert forall|i: int| 0 <= i < fields.len() implies #[trigger] fields_view(fields)[i] == (
            fields[i].0@,
            fields[i].1@,
        ) by {
            if i < fields.len() - 1 {
                assert(fields_view(fields)[i] == fields_view(fields.drop_last())[i]);
                assert(fields[i] == fields.drop_last()[i]);
            }
        }
    }
}

/// Puts a field behind the others.
pub fn put(fields: &mut Vec<(String, Json)>, name: &str, value: Json)
    ensures
        fields_view(final(fields)@) == fields_view(old(fields)@).push((name@, value@)),
{
    fields.push((name.to_string(), value));
    assert(fields@.drop_last() =~= old(fields)@);
}

/// Puts an item behind the others.
pub fn put_item(items: &mut Vec<Json>, value: Json)
    ensures
        items_view(final(items)@) == items_view(old(items)@).push(value@),
{
    proof {
        lemma_items_push(items@, value);
    }
    items.push(value);
}

/// A text value.
pub fn text(s: &str) -> (r: Json)
    ensures
        r@ == JsonView::Text(s@),
{
    Json::Text(s.to_string())
}

/// A number, or null.
pub fn optional_number(x: Option<Double>) -> (r: Json)
    ensures
        r@ == JsonView::of_number(x),
{
    match x {
        Some(v) => Json::Number(v),
        None => Json::Null,
    }
}

impl Json {
    /// The same value once more.
    pub fn copy(&self) -> (r: Json)
        ensures
            r@ == self@,
        decreases self,
    {
        match self {
            Json::Null => Json::Null,
            Json::Bool(b) => Json::Bool(*b),
            Json::Int(n) => Json::Int(*n),
            Json::Uint(n) => Json::Uint(*n),
            Json::Number(x) => Json::Number(*x),
            Json::Text(s) => Json::Text(s.clone()),
            Json::List(items) => {
                let mut out: Vec<Json> = Vec::new();
                let mut i: usize = 0;
                while i < items.len()
                    invariant
                        i <= items@.len(),
                        items_view(out@) == items_view(items@.take(i as int)),
                        *self == Json::List(*items),
                    decreases items@.len() - i,
                {
                    proof {
                        assert(decreases_to!(*self => self->List_0));
                        assert(decreases_to!(items => items@));
                        assert(decreases_to!(items@ => items@[i as int]));
                    }
                    put_item(&mut out, items[i].copy());
                    assert(items@.take(i + 1).drop_last() =~= items@.take(i as int));
                    i = i + 1;
                }
                assert(items@.take(i as int) =~= items@);
                Json::List(out)
            },
            Json::Object(fields) => {
                let mut out: Vec<(String, Json)> = Vec::new();
                let mut i: usize = 0;
                while i < fields.len()
                    invariant
                        i <= fields@.len(),
                        fields_view(out@) == fields_view(fields@.take(i as int)),
                        *self == Json::Object(*fields),
                    decreases fields@.len() - i,
                {
                    proof {
                        assert(decreases_to!(*self => self->Object_0));
                        assert(decreases_to!(fields => fields@));
                        assert(decreases_to!(fields@ => fields@[i as int]));
                        assert(decreases_to!(fields@[i as int] => fields@[i as int].1));
                    }
                    put(&mut out, fields[i].0.as_str(), fields[i].1.copy());
                    assert(fields@.take(i + 1).drop_last() =~= fields@.take(i as int));
                    i = i + 1;
                }
                assert(fields@.take(i as int) =~= fields@);
                Json::Object(out)
            },
        }
    }

    /// The field called `name`.
    pub fn get(&self, name: &str) -> (r: Option<&Json>)
        ensures
            match r {
                Some(v) => self@.field(name@) == Some(v@),
                None => self@.field(name@) is None,
            },
    {
        match self {
            Json::Object(fields) => {
                let mut i: usize = fields.len();
                let ghost all = fields_view(fields@);
                proof {
                    lemma_fields_view(fields@);
                    assert(all.take(i as int) =~= all);
                }
                while i > 0
                    invariant
                        i <= fields@.len(),
                        all == fields_view(fields@),
                        all.len() == fields@.len(),
                        forall|j: int|
                            0 <= j < fields@.len() ==> #[trigger] all[j] == (
                                fields@[j].0@,
                                fields@[j].1@,
                            ),
                        self@ == JsonView::Object(all),
                        find_field(all, name@) == find_field(all.take(i as int), name@),
                    decreases i,
                {
                    assert(all.take(i as int).drop_last() =~= all.take(i - 1));
                    assert(all.take(i as int).last() == all[i - 1]);
                    if same(fields[i - 1].0.as_str(), name) {
                        return Some(&fields[i - 1].1);
                    }
                    i = i - 1;
                }
                None
            },
            _ => None,
        }
    }

    /// The item at `i`.
    pub fn item(&self, i: usize) -> (r: Option<&Json>)
        ensures
            match r {
                Some(v) => self@.item(i as int) == Some(v@),
                None => self@.item(i as int) is None,
            },
    {
        match self {
            Json::List(items) => {
                proof {
                    lemma_items_view(items@);
                }
                if i < items.len() {
                    Some(&items[i])
                } else {
                    None
                }
            },
            _ => None,
        }
    }

    /// The items of a list.
    pub fn as_array(&self) -> (r: Option<&Vec<Json>>)
        ensures
            match r {
                Some(v) => self@ == JsonView::List(items_view(v@)),
                None => !(self@ is List),
            },
    {
        match self {
            Json::List(items) => Some(items),
            _ => None,
        }
    }

    /// The whole number that fits in an `i64`.
    pub fn as_i64(&self) -> (r: Option<i64>)
        ensures
            match r {
                Some(n) => self@.whole() == Some(n as int),
                None => self@.whole() is None || self@.whole()->0 > i64::MAX,
            },
    {
        match self {
            Json::Int(n) => Some(*n),
            Json::Uint(n) => if *n <= i64::MAX as u64 {
                Some(*n as i64)
            } else {
                None
            },
            _ => None,
        }
    }

    /// The whole number that fits in a `u64`.
    pub fn as_u64(&self) -> (r: Option<u64>)
        ensures
            match r {
                Some(n) => self@.whole() == Some(n as int),
                None => self@.whole() is None || self@.whole()->0 < 0,
            },
    {
        match self {
            Json::Int(n) => if *n >= 0 {
                Some(*n as u64)
            } else {
                None
            },
            Json::Uint(n) => Some(*n),
            _ => None,
        }
    }

    /// The number, whole or not, in double precision.
    pub fn as_double(&self) -> (r: Option<Double>)
        ensures
            r == self@.number(),
    {
        match self {
            Json::Int(n) => Some(Double::from_i64(*n)),
            Json::Uint(n) => Some(Double::from_u64(*n)),
            Json::Number(x) => Some(*x),
            _ => None,
        }
    }

    /// The text.
    pub fn as_str(&self) -> (r: Option<&str>)
        ensures
            match r {
                Some(s) => self@.text() == Some(s@),
                None => self@.text() is None,
            },
    {
        match self {
            Json::Text(s) => Some(s.as_str()),
            _ => None,
        }
    }
}

} // verus!
