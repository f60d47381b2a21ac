//! JSON values as they come from the own node and from the database.
use vstd::prelude::*;

use crate::text::same_text;

verus! {

/// A JSON value. A number is kept where it is a whole number that fits in 64 bits with sign. The
/// keys of an object occur once each.
#[derive(Debug)]
pub enum Json {
    Null,
    Bool(bool),
    Number(Option<i64>),
    Text(String),
    Array(Vec<Json>),
    Object(Vec<(String, Json)>),
}

/// The value of the first entry with this key.
pub open spec fn entry(v: Seq<(String, Json)>, key: Seq<char>) -> Option<Json>
    decreases v.len(),
{
    if v.len() == 0 {
        None
    } else if v[0].0@ == key {
        Some(v[0].1)
    } else {
        entry(v.skip(1), key)
    }
}

impl Json {
    /// The value under `key`, where this is an object that has it.
    pub open spec fn field(self, key: Seq<char>) -> Option<Json> {
        match self {
            Json::Object(v) => entry(v@, key),
            _ => None,
        }
    }

    /// The whole number that this is.
    pub open spec fn number(self) -> Option<i64> {
        match self {
            Json::Number(n) => n,
            _ => None,
        }
    }

    /// The text that this is.
    pub open spec fn text(self) -> Option<Seq<char>> {
        match self {
            Json::Text(s) => Some(s@),
            _ => None,
        }
    }

    /// The items of the array that this is.
    pub open spec fn items(self) -> Option<Seq<Json>> {
        match self {
            Json::Array(v) => Some(v@),
            _ => None,
        }
    }

    /// The whole number under `key`, or 0.
    pub open spec fn number_or_0(self, key: Seq<char>) -> i64 {
        match self.field(key) {
            Some(v) => v.number().unwrap_or(0),
            None => 0,
        }
    }

    /// The text under `key`, or the empty text.
    pub open spec fn text_or_empty(self, key: Seq<char>) -> Seq<char> {
        match self.field(key) {
            Some(v) => v.text().unwrap_or(Seq::empty()),
            None => Seq::empty(),
        }
    }

    /// The items of the array under `key`, or none.
    pub open spec fn items_or_none(self, key: Seq<char>) -> Seq<Json> {
        match self.field(key) {
            Some(v) => v.items().unwrap_or(Seq::empty()),
            None => Seq::empty(),
        }
    }

    /// The value under `key`.
    pub fn get(&self, key: &str) -> (r: Option<&Json>)
        ensures
            match r {
                Some(v) => self.field(key@) == Some(*v),
                None => self.field(key@).is_none(),
            },
    {
        match self {
            Json::Object(v) => {
                let mut i: usize = 0;
                assert(v@.skip(0) == v@);
                while i < v.len()
                    invariant
                        i <= v@.len(),
                        self.field(key@) == entry(v@, key@),
                        entry(v@, key@) == entry(v@.skip(i as int), key@),
                    decreases v@.len() - i,
                {
                    if same_text(v[i].0.as_str(), key) {
                        return Some(&v[i].1);
                    }
                    assert(v@.skip(i as int).skip(1) == v@.skip(i + 1));
                    i = i + 1;
                }
                None
            },
            _ => None,
        }
    }

    /// Whether this is `null`.
    pub fn is_null(&self) -> (r: bool)
        ensures
            r == (*self is Null),
    {
        match self {
            Json::Null => true,
            _ => false,
        }
    }

    /// The whole number that this is.
    pub fn as_i64(&self) -> (r: Option<i64>)
        ensures
            r == self.number(),
    {
        match self {
            Json::Number(n) => *n,
            _ => None,
        }
    }

    /// The text that this is.
    pub fn as_str(&self) -> (r: Option<&str>)
        ensures
            match r {
                Some(s) => self.text() == Some(s@),
                None => self.text().is_none(),
            },
    {
        match self {
            Json::Text(s) => Some(s.as_str()),
            _ => None,
        }
    }

    /// The items of the array that this is.
    pub fn as_array(&self) -> (r: Option<&Vec<Json>>)
        ensures
            match r {
                Some(v) => self.items() == Some(v@),
                None => self.items().is_none(),
            },
    {
        match self {
            Json::Array(v) => Some(v),
            _ => None,
        }
    }

    /// The whole number under `key`, or 0.
    pub fn get_i64(&self, key: &str) -> (r: i64)
        ensures
            r == self.number_or_0(key@),
    {
        match self.get(key) {
            Some(v) => match v.as_i64() {
                Some(n) => n,
                None => 0,
            },
            None => 0,
        }
    }

    /// The text under `key`, or the empty text.
    pub fn get_text(&self, key: &str) -> (r: String)
        ensures
            r@ == self.text_or_empty(key@),
    {
        match self.get(key) {
            Some(v) => match v.as_str() {
                Some(s) => s.to_owned(),
                None => {
                    let e = String::new();
                    assert(e@ == Seq::<char>::empty());
                    e
                },
            },
            None => {
                let e = String::new();
                assert(e@ == Seq::<char>::empty());
                e
            },
        }
    }

    /// The items of the array under `key`.
    pub fn get_items(&self, key: &str) -> (r: Option<&Vec<Json>>)
        ensures
            match r {
                Some(v) => v@ == self.items_or_none(key@),
                None => self.items_or_none(key@) == Seq::<Json>::empty(),
            },
    {
        match self.get(key) {
            Some(v) => v.as_array(),
            None => None,
        }
    }
}

// ---- over the items of arrays -------------------------------------------------------------

/// Whether some item meets `f`.
pub open spec fn any(s: Seq<Json>, f: spec_fn(Json) -> bool) -> bool
    decreases s.len(),
{
    s.len() > 0 && (any(s.drop_last(), f) || f(s.last()))
}

/// The sum of `f` over the items.
pub open spec fn total(s: Seq<Json>, f: spec_fn(Json) -> int) -> int
    decreases s.len(),
{
    if s.len() == 0 {
        0
    } else {
        total(s.drop_last(), f) + f(s.last())
    }
}

/// Some item meets `f` where there is one that does.
pub proof fn law_any(s: Seq<Json>, f: spec_fn(Json) -> bool)
    ensures
        any(s, f) <==> exists|i: int| 0 <= i < s.len() && f(#[trigger] s[i]),
    decreases s.len(),
{
    if s.len() > 0 {
        let d = s.drop_last();
        law_any(d, f);
        if any(d, f) {
            let i = choose|i: int| 0 <= i < d.len() && f(#[trigger] d[i]);
            assert(s[i] == d[i]);
        }
        if f(s.last()) {
            assert(f(s[s.len() - 1]));
        }
        if exists|i: int| 0 <= i < s.len() && f(#[trigger] s[i]) {
            let i = choose|i: int| 0 <= i < s.len() && f(#[trigger] s[i]);
            if i < d.len() {
                assert(f(d[i]));
            }
        }
    }
}

/// What one more item does.
pub proof fn lemma_take(s: Seq<Json>, i: int)
    requires
        0 <= i < s.len(),
    ensures
        s.take(i + 1).drop_last() == s.take(i),
        s.take(i + 1).last() == s[i],
{
    assert(s.take(i + 1).drop_last() =~= s.take(i));
}

/// A sum of numbers that are not negative is not smaller over more items.
pub proof fn lemma_total_grows(s: Seq<Json>, f: spec_fn(Json) -> int, i: int)
    requires
        0 <= i <= s.len(),
        forall|x: Json| #[trigger] f(x) >= 0,
    ensures
        0 <= total(s.take(i), f) <= total(s, f),
    decreases s.len() - i,
{
    if i < s.len() {
        lemma_take(s, i);
        assert(f(s[i]) >= 0);
        lemma_total_grows(s, f, i + 1);
        lemma_total_positive(s.take(i), f);
    } else {
        assert(s.take(i) == s);
        lemma_total_positive(s, f);
    }
}

proof fn lemma_total_positive(s: Seq<Json>, f: spec_fn(Json) -> int)
    requires
        forall|x: Json| #[trigger] f(x) >= 0,
    ensures
        total(s, f) >= 0,
    decreases s.len(),
{
    if s.len() > 0 {
        lemma_total_positive(s.drop_last(), f);
        assert(f(s.last()) >= 0);
    }
}

/// A field of an object is the value of its first entry of that name; an object without one, and
/// anything that is no object, has no such field.
pub proof fn law_field(v: Vec<(String, Json)>, key: Seq<char>, i: int)
    requires
        0 <= i <= v@.len(),
        forall|j: int| 0 <= j < i ==> (#[trigger] v@[j]).0@ != key,
        i < v@.len() ==> v@[i].0@ == key,
    ensures
        Json::Object(v).field(key) == (if i < v@.len() {
            Some(v@[i].1)
        } else {
            None
        }),
        forall|x: Json| !(x is Object) ==> (#[trigger] x.field(key)).is_none(),
{
    lemma_entry(v@, key, i);
}

proof fn lemma_entry(v: Seq<(String, Json)>, key: Seq<char>, i: int)
    requires
        0 <= i <= v.len(),
        forall|j: int| 0 <= j < i ==> (#[trigger] v[j]).0@ != key,
        i < v.len() ==> v[i].0@ == key,
    ensures
        entry(v, key) == (if i < v.len() {
            Some(v[i].1)
        } else {
            None
        }),
    decreases i,
{
    if i > 0 {
        let r = v.skip(1);
        assert(v[0].0@ != key);
        assert forall|j: int| 0 <= j < i - 1 implies (#[trigger] r[j]).0@ != key by {
            assert(r[j] == v[j + 1]);
        }
        lemma_entry(r, key, i - 1);
    }
}

/// What a field is read as: its number, text or items, and 0 or nothing where it is missing or of
/// another kind.
pub proof fn law_field_values(x: Json, key: Seq<char>)
    ensures
        match x.field(key) {
            Some(Json::Number(Some(n))) => x.number_or_0(key) == n,
            _ => x.number_or_0(key) == 0,
        },
        match x.field(key) {
            Some(Json::Text(s)) => x.text_or_empty(key) == s@,
            _ => x.text_or_empty(key).len() == 0,
        },
        match x.field(key) {
            Some(Json::Array(v)) => x.items_or_none(key) == v@,
            _ => x.items_or_none(key).len() == 0,
        },
{
}

/// A sum over two lists is the two sums, and over one item what the item gives.
pub proof fn law_total(a: Seq<Json>, b: Seq<Json>, x: Json, f: spec_fn(Json) -> int)
    ensures
        total(Seq::empty(), f) == 0,
        total(seq![x], f) == f(x),
        total(a + b, f) == total(a, f) + total(b, f),
    decreases b.len(),
{
    reveal_with_fuel(total, 2);
    assert(seq![x].drop_last() =~= Seq::<Json>::empty());
    if b.len() == 0 {
        assert(a + b =~= a);
    } else {
        law_total(a, b.drop_last(), x, f);
        assert((a + b).drop_last() =~= a + b.drop_last());
    }
}

/// Sums of what is equal on every item are equal.
pub proof fn lemma_same_total(s: Seq<Json>, f: spec_fn(Json) -> int, g: spec_fn(Json) -> int)
    requires
        forall|i: int| 0 <= i < s.len() ==> f(#[trigger] s[i]) == g(s[i]),
    ensures
        total(s, f) == total(s, g),
    decreases s.len(),
{
    if s.len() > 0 {
        let d = s.drop_last();
        assert forall|i: int| 0 <= i < d.len() implies f(#[trigger] d[i]) == g(d[i]) by {
            assert(d[i] == s[i]);
        }
        lemma_same_total(d, f, g);
        assert(s[s.len() - 1] == s.last());
    }
}

/// One item gives no more than the sum of all, where none is negative.
pub proof fn lemma_one_of_total(s: Seq<Json>, f: spec_fn(Json) -> int, i: int)
    requires
        0 <= i < s.len(),
        forall|x: Json| #[trigger] f(x) >= 0,
    ensures
        f(s[i]) <= total(s, f),
{
    lemma_take(s, i);
    lemma_total_grows(s, f, i + 1);
    lemma_total_grows(s, f, i);
}

} // verus!
