//! The fields of a document: an ordered map from names to values.

use crate::bytes::{bytes_lt, lemma_lex_strict, lemma_lex_total, lemma_lex_transitive, lex_lt};
use crate::value::{field_views, same_value, Datum, Value};
use vstd::prelude::*;
use vstd::utf8::encode_utf8;

verus! {

/// Whether name `a` sorts before name `b`: by the bytes of their UTF-8 encodings.
pub open spec fn name_lt(a: Seq<char>, b: Seq<char>) -> bool {
    lex_lt(encode_utf8(a), encode_utf8(b))
}

/// Whether the names rise strictly, so that none occurs twice.
pub open spec fn names_sorted(fields: Seq<(Seq<char>, Datum)>) -> bool {
    forall|i: int, j: int|
        0 <= i < j < fields.len() ==> name_lt((#[trigger] fields[i]).0, (#[trigger] fields[j]).0)
}

/// The value of the field called `name`, if there is one.
pub open spec fn lookup(fields: Seq<(Seq<char>, Datum)>, name: Seq<char>) -> Option<Datum> {
    if exists|i: int| 0 <= i < fields.len() && (#[trigger] fields[i]).0 == name {
        Some(fields[choose|i: int| 0 <= i < fields.len() && (#[trigger] fields[i]).0 == name].1)
    } else {
        None
    }
}

/// How many leading names sort before `name`.
pub open spec fn slot_of(fields: Seq<(Seq<char>, Datum)>, name: Seq<char>) -> int
    decreases fields.len(),
{
    if fields.len() > 0 && name_lt(fields[0].0, name) {
        1 + slot_of(fields.drop_first(), name)
    } else {
        0
    }
}

/// The fields after `name` was set to `value`.
pub open spec fn with_field(
    fields: Seq<(Seq<char>, Datum)>,
    name: Seq<char>,
    value: Datum,
) -> Seq<(Seq<char>, Datum)> {
    let at = slot_of(fields, name);
    if at < fields.len() && fields[at].0 == name {
        fields.update(at, (name, value))
    } else {
        fields.insert(at, (name, value))
    }
}

/// The fields that result from setting each pair in turn: the last pair of a name wins.
pub open spec fn collected(pairs: Seq<(Seq<char>, Datum)>) -> Seq<(Seq<char>, Datum)>
    decreases pairs.len(),
{
    if pairs.len() == 0 {
        seq![]
    } else {
        with_field(collected(pairs.drop_last()), pairs.last().0, pairs.last().1)
    }
}

pub proof fn lemma_name_order(a: Seq<char>, b: Seq<char>, c: Seq<char>)
    ensures
        !name_lt(a, a),
        name_lt(a, b) ==> !name_lt(b, a),
        name_lt(a, b) || name_lt(b, a) || a == b,
        name_lt(a, b) && name_lt(b, c) ==> name_lt(a, c),
{
    lemma_lex_strict(encode_utf8(a), encode_utf8(b));
    lemma_lex_total(encode_utf8(a), encode_utf8(b));
    lemma_lex_transitive(encode_utf8(a), encode_utf8(b), encode_utf8(c));
    vstd::utf8::encode_utf8_decode_utf8(a);
    vstd::utf8::encode_utf8_decode_utf8(b);
}

/// The names before the slot sort before `name`; the others do not.
pub proof fn lemma_slot_of(fields: Seq<(Seq<char>, Datum)>, name: Seq<char>)
    requires
        names_sorted(fields),
    ensures
        0 <= slot_of(fields, name) <= fields.len(),
        forall|i: int|
            0 <= i < slot_of(fields, name) ==> name_lt((#[trigger] fields[i]).0, name),
        forall|i: int|
            slot_of(fields, name) <= i < fields.len() ==> !name_lt(
                (#[trigger] fields[i]).0,
                name,
            ),
    decreases fields.len(),
{
    if fields.len() > 0 {
        let rest = fields.drop_first();
        if name_lt(fields[0].0, name) {
            lemma_slot_of(rest, name);
            assert forall|i: int| 0 <= i < slot_of(fields, name) implies name_lt(
                (#[trigger] fields[i]).0,
                name,
            ) by {
                if i > 0 {
                    assert(fields[i] == rest[i - 1]);
                }
            }
            assert forall|i: int| slot_of(fields, name) <= i < fields.len() implies !name_lt(
                (#[trigger] fields[i]).0,
                name,
            ) by {
                assert(fields[i] == rest[i - 1]);
            }
        } else {
            assert forall|i: int| 0 <= i < fields.len() implies !name_lt(
                (#[trigger] fields[i]).0,
                name,
            ) by {
                if i > 0 {
                    lemma_name_order(fields[0].0, fields[i].0, name);
                }
            }
        }
    }
}

/// A slot is known by what lies around it.
pub proof fn lemma_slot_is(fields: Seq<(Seq<char>, Datum)>, name: Seq<char>, at: int)
    requires
        names_sorted(fields),
        0 <= at <= fields.len(),
        at > 0 ==> name_lt(fields[at - 1].0, name),
        at < fields.len() ==> !name_lt(fields[at].0, name),
    ensures
        slot_of(fields, name) == at,
{
    lemma_slot_of(fields, name);
    if slot_of(fields, name) < at {
        let s = slot_of(fields, name);
        if s < at - 1 {
            lemma_name_order(fields[s].0, fields[at - 1].0, name);
        }
    }
}

/// A name looks up to the value beside it.
pub proof fn lemma_lookup_at(fields: Seq<(Seq<char>, Datum)>, i: int)
    requires
        names_sorted(fields),
        0 <= i < fields.len(),
    ensures
        lookup(fields, fields[i].0) == Some(fields[i].1),
{
    let name = fields[i].0;
    let j = choose|j: int| 0 <= j < fields.len() && (#[trigger] fields[j]).0 == name;
    assert(0 <= j < fields.len() && fields[j].0 == name);
    lemma_name_order(name, name, name);
    if i < j {
        assert(name_lt(fields[i].0, fields[j].0));
    } else if j < i {
        assert(name_lt(fields[j].0, fields[i].0));
    }
}

/// A name looks up through its slot.
pub proof fn lemma_lookup_slot(fields: Seq<(Seq<char>, Datum)>, name: Seq<char>)
    requires
        names_sorted(fields),
    ensures
        ({
            let at = slot_of(fields, name);
            if at < fields.len() && fields[at].0 == name {
                lookup(fields, name) == Some(fields[at].1)
            } else {
                lookup(fields, name) is None
            }
        }),
{
    lemma_slot_of(fields, name);
    let at = slot_of(fields, name);
    if at < fields.len() && fields[at].0 == name {
        lemma_lookup_at(fields, at);
    } else if exists|i: int| 0 <= i < fields.len() && (#[trigger] fields[i]).0 == name {
        let i = choose|i: int| 0 <= i < fields.len() && (#[trigger] fields[i]).0 == name;
        lemma_name_order(name, name, name);
        assert(i > at);
        assert(name_lt(fields[at].0, fields[i].0));
    }
}

/// Setting a field keeps the names sorted.
pub proof fn lemma_with_field_sorted(
    fields: Seq<(Seq<char>, Datum)>,
    name: Seq<char>,
    value: Datum,
)
    requires
        names_sorted(fields),
    ensures
        names_sorted(with_field(fields, name, value)),
{
    lemma_slot_of(fields, name);
    let at = slot_of(fields, name);
    let r = with_field(fields, name, value);
    if at < fields.len() && fields[at].0 == name {
        assert forall|i: int, j: int| 0 <= i < j < r.len() implies name_lt(
            (#[trigger] r[i]).0,
            (#[trigger] r[j]).0,
        ) by {
            assert(r[i].0 == fields[i].0 && r[j].0 == fields[j].0);
        }
    } else {
        assert forall|i: int, j: int| 0 <= i < j < r.len() implies name_lt(
            (#[trigger] r[i]).0,
            (#[trigger] r[j]).0,
        ) by {
            if j == at {
                assert(r[i] == fields[i]);
            } else if i == at {
                assert(r[j] == fields[j - 1]);
                lemma_name_order(name, fields[j - 1].0, name);
                if fields[j - 1].0 == name {
                    lemma_name_order(fields[at].0, name, name);
                    if j - 1 > at {
                        assert(name_lt(fields[at].0, fields[j - 1].0));
                    }
                }
            } else {
                let i0 = if i < at { i } else { i - 1 };
                let j0 = if j < at { j } else { j - 1 };
                assert(r[i] == fields[i0] && r[j] == fields[j0]);
            }
        }
    }
}

/// A field that was set reads back, and no other field changes.
pub proof fn law_lookup_after_set(
    fields: Seq<(Seq<char>, Datum)>,
    name: Seq<char>,
    value: Datum,
    other: Seq<char>,
)
    requires
        names_sorted(fields),
    ensures
        lookup(with_field(fields, name, value), name) == Some(value),
        other != name ==> lookup(with_field(fields, name, value), other) == lookup(fields, other),
{
    lemma_with_field_sorted(fields, name, value);
    lemma_slot_of(fields, name);
    let at = slot_of(fields, name);
    let r = with_field(fields, name, value);
    assert(r[at] == (name, value));
    lemma_lookup_at(r, at);
    if other != name {
        let replaced = at < fields.len() && fields[at].0 == name;
        if exists|i: int| 0 <= i < fields.len() && (#[trigger] fields[i]).0 == other {
            let i = choose|i: int| 0 <= i < fields.len() && (#[trigger] fields[i]).0 == other;
            let k = if replaced || i < at { i } else { i + 1 };
            assert(r[k] == fields[i]);
            lemma_lookup_at(fields, i);
            lemma_lookup_at(r, k);
        } else if exists|k: int| 0 <= k < r.len() && (#[trigger] r[k]).0 == other {
            let k = choose|k: int| 0 <= k < r.len() && (#[trigger] r[k]).0 == other;
            let i = if replaced || k < at { k } else { k - 1 };
            assert(r[k] == fields[i]);
        }
    }
}

pub proof fn lemma_collected_sorted(pairs: Seq<(Seq<char>, Datum)>)
    ensures
        names_sorted(collected(pairs)),
    decreases pairs.len(),
{
    if pairs.len() > 0 {
        lemma_collected_sorted(pairs.drop_last());
        lemma_with_field_sorted(
            collected(pairs.drop_last()),
            pairs.last().0,
            pairs.last().1,
        );
    }
}

/// Whether `a` sorts before `b`.
pub(crate) fn name_before(a: &str, b: &str) -> (r: bool)
    ensures
        r == name_lt(a@, b@),
{
    bytes_lt(a.as_bytes(), b.as_bytes())
}

/// What can name a field: owned or borrowed text.
pub trait FieldName: Sized {
    /// The name.
    spec fn text(&self) -> Seq<char>;

    /// The name as owned text.
    fn into_name(self) -> (name: String)
        ensures
            name@ == self.text(),
    ;
}

impl FieldName for String {
    open spec fn text(&self) -> Seq<char> {
        self@
    }

    fn into_name(self) -> (name: String) {
        self
    }
}

impl FieldName for &str {
    open spec fn text(&self) -> Seq<char> {
        self@
    }

    fn into_name(self) -> (name: String) {
        self.to_owned()
    }
}

/// Pairs of names and values as mathematical values.
pub open spec fn pair_views<K: FieldName>(pairs: Seq<(K, Value)>) -> Seq<(Seq<char>, Datum)> {
    Seq::new(pairs.len(), |i: int| (pairs[i].0.text(), pairs[i].1@))
}

/// The named fields of a document, sorted by name, each name once.
#[derive(Debug)]
pub struct Fields {
    entries: Vec<(String, Value)>,
}

impl View for Fields {
    type V = Seq<(Seq<char>, Datum)>;

    closed spec fn view(&self) -> Seq<(Seq<char>, Datum)> {
        field_views(self.entries@)
    }
}

impl Fields {
    /// The names rise strictly.
    #[verifier::type_invariant]
    pub open spec fn well_formed(self) -> bool {
        names_sorted(self@)
    }

    /// No fields.
    pub fn new() -> (fields: Self)
        ensures
            fields@ == Seq::<(Seq<char>, Datum)>::empty(),
    {
        let fields = Fields { entries: Vec::new() };
        assert(fields@ =~= seq![]);
        fields
    }

    /// Number of fields.
    pub fn len(&self) -> (n: usize)
        ensures
            n == self@.len(),
    {
        self.entries.len()
    }

    /// Whether there are no fields.
    pub fn is_empty(&self) -> (r: bool)
        ensures
            r == (self@.len() == 0),
    {
        self.entries.len() == 0
    }

    /// The name of the field at a position in name order.
    pub fn name_at(&self, i: usize) -> (name: &String)
        requires
            i < self@.len(),
        ensures
            name@ == self@[i as int].0,
    {
        &self.entries[i].0
    }

    /// The value of the field at a position in name order.
    pub fn value_at(&self, i: usize) -> (value: &Value)
        requires
            i < self@.len(),
        ensures
            value@ == self@[i as int].1,
    {
        &self.entries[i].1
    }

    fn find(&self, name: &str) -> (at: usize)
        ensures
            at == slot_of(self@, name@),
            at <= self@.len(),
    {
        proof {
            use_type_invariant(self);
        }
        let mut lo: usize = 0;
        let mut hi: usize = self.entries.len();
        while lo < hi
            invariant
                lo <= hi <= self@.len(),
                self@.len() == self.entries@.len(),
                names_sorted(self@),
                lo > 0 ==> name_lt(self@[lo - 1].0, name@),
                hi < self@.len() ==> !name_lt(self@[hi as int].0, name@),
            decreases hi - lo,
        {
            let mid: usize = lo + (hi - lo) / 2;
            if name_before(self.entries[mid].0.as_str(), name) {
                lo = mid + 1;
            } else {
                hi = mid;
            }
        }
        proof {
            lemma_slot_is(self@, name@, lo as int);
        }
        lo
    }

    /// The value of the field called `name`.
    pub fn get(&self, name: &str) -> (r: Option<&Value>)
        ensures
            match r {
                Some(v) => lookup(self@, name@) == Some(v@),
                None => lookup(self@, name@) is None,
            },
    {
        let at: usize = self.find(name);
        proof {
            use_type_invariant(self);
            lemma_slot_of(self@, name@);
            lemma_lookup_slot(self@, name@);
        }
        if at < self.entries.len() {
            proof {
                lemma_name_order(name@, self@[at as int].0, name@);
            }
            if !name_before(name, self.entries[at].0.as_str()) {
                return Some(&self.entries[at].1);
            }
        }
        None
    }

    /// Sets a field. Returns the value that it had before, if any.
    pub fn insert(&mut self, name: String, value: Value) -> (previous: Option<Value>)
        ensures
            final(self)@ == with_field(old(self)@, name@, value@),
            match previous {
                Some(v) => lookup(old(self)@, name@) == Some(v@),
                None => lookup(old(self)@, name@) is None,
            },
    {
        let at: usize = self.find(name.as_str());
        let ghost fields = self@;
        proof {
            use_type_invariant(&*self);
            lemma_slot_of(self@, name@);
            lemma_lookup_slot(self@, name@);
            lemma_with_field_sorted(self@, name@, value@);
        }
        let mut entries: Vec<(String, Value)> = Vec::new();
        std::mem::swap(&mut entries, &mut self.entries);
        let mut present: bool = false;
        if at < entries.len() {
            proof {
                lemma_name_order(name@, fields[at as int].0, name@);
            }
            present = !name_before(name.as_str(), entries[at].0.as_str());
        }
        if present {
            let old_entry = entries.remove(at);
            entries.insert(at, (name, value));
            proof {
                assert(field_views(entries@) =~= with_field(fields, name@, value@));
            }
            self.entries = entries;
            Some(old_entry.1)
        } else {
            entries.insert(at, (name, value));
            proof {
                assert(field_views(entries@) =~= with_field(fields, name@, value@));
            }
            self.entries = entries;
            None
        }
    }
}

impl Clone for Fields {
    fn clone(&self) -> (r: Self)
        ensures
            r@ == self@,
    {
        proof {
            use_type_invariant(self);
        }
        let n: usize = self.entries.len();
        let mut entries: Vec<(String, Value)> = Vec::new();
        let mut i: usize = 0;
        while i < n
            invariant
                n == self.entries@.len(),
                i <= n,
                field_views(entries@) == self@.take(i as int),
            decreases n - i,
        {
            let ghost before = entries@;
            entries.push((self.entries[i].0.clone(), self.entries[i].1.clone()));
            proof {
                assert(field_views(entries@) =~= field_views(before).push(self@[i as int]));
                assert(self@.take(i + 1) =~= self@.take(i as int).push(self@[i as int]));
            }
            i += 1;
        }
        assert(self@.take(n as int) =~= self@);
        Fields { entries }
    }
}

/// Equality of fields: the same names, each with an equal value.
pub open spec fn same_fields(a: Seq<(Seq<char>, Datum)>, b: Seq<(Seq<char>, Datum)>) -> bool {
    a.len() == b.len() && forall|i: int|
        0 <= i < a.len() ==> (#[trigger] a[i]).0 == b[i].0 && same_value(a[i].1, b[i].1)
}

impl PartialEq for Fields {
    fn eq(&self, other: &Self) -> (r: bool) {
        if self.entries.len() != other.entries.len() {
            return false;
        }
        let n: usize = self.entries.len();
        let mut i: usize = 0;
        while i < n
            invariant
                n == self.entries@.len(),
                n == other.entries@.len(),
                i <= n,
                forall|j: int|
                    0 <= j < i ==> (#[trigger] self@[j]).0 == other@[j].0 && same_value(
                        self@[j].1,
                        other@[j].1,
                    ),
            decreases n - i,
        {
            if !(self.entries[i].0 == other.entries[i].0 && self.entries[i].1.same(
                &other.entries[i].1,
            )) {
                assert(!(self@[i as int].0 == other@[i as int].0 && same_value(
                    self@[i as int].1,
                    other@[i as int].1,
                )));
                return false;
            }
            i += 1;
        }
        true
    }
}

impl vstd::std_specs::cmp::PartialEqSpecImpl for Fields {
    open spec fn obeys_eq_spec() -> bool {
        true
    }

    open spec fn eq_spec(&self, other: &Self) -> bool {
        same_fields(self@, other@)
    }
}

/// The texts of some strings.
pub open spec fn texts(names: Seq<String>) -> Seq<Seq<char>> {
    Seq::new(names.len(), |i: int| names[i]@)
}

/// The fields whose names are listed.
pub open spec fn projected(fields: Seq<(Seq<char>, Datum)>, names: Seq<Seq<char>>) -> Seq<
    (Seq<char>, Datum),
>
    decreases fields.len(),
{
    if fields.len() == 0 {
        seq![]
    } else {
        let init = projected(fields.drop_last(), names);
        if names.contains(fields.last().0) {
            init.push(fields.last())
        } else {
            init
        }
    }
}

proof fn lemma_projected(fields: Seq<(Seq<char>, Datum)>, names: Seq<Seq<char>>)
    requires
        names_sorted(fields),
    ensures
        names_sorted(projected(fields, names)),
        forall|k: int|
            0 <= k < projected(fields, names).len() ==> names.contains(
                (#[trigger] projected(fields, names)[k]).0,
            ) && fields.contains(projected(fields, names)[k]),
        forall|i: int|
            0 <= i < fields.len() && names.contains((#[trigger] fields[i]).0) ==> projected(
                fields,
                names,
            ).contains(fields[i]),
    decreases fields.len(),
{
    if fields.len() > 0 {
        let init = fields.drop_last();
        let last = fields.last();
        lemma_projected(init, names);
        let p = projected(init, names);
        let r = projected(fields, names);
        assert forall|k: int| 0 <= k < p.len() implies fields.contains(#[trigger] p[k]) by {
            let i = choose|i: int| 0 <= i < init.len() && init[i] == p[k];
            assert(fields[i] == p[k]);
        }
        assert forall|i: int, j: int| 0 <= i < j < r.len() implies name_lt(
            (#[trigger] r[i]).0,
            (#[trigger] r[j]).0,
        ) by {
            if j < p.len() {
                assert(r[i] == p[i] && r[j] == p[j]);
            } else {
                assert(init.contains(p[i]));
                let m = choose|m: int| 0 <= m < init.len() && init[m] == p[i];
                assert(name_lt(fields[m].0, fields[init.len() as int].0));
            }
        }
        assert forall|k: int| 0 <= k < r.len() implies names.contains((#[trigger] r[k]).0)
            && fields.contains(r[k]) by {
            if k < p.len() {
                assert(r[k] == p[k]);
            } else {
                assert(fields[init.len() as int] == last);
            }
        }
        assert forall|i: int|
            0 <= i < fields.len() && names.contains((#[trigger] fields[i]).0) implies r.contains(
            fields[i],
        ) by {
            if i < init.len() {
                assert(init[i] == fields[i]);
                let k = choose|k: int| 0 <= k < p.len() && p[k] == fields[i];
                assert(r[k] == fields[i]);
            } else {
                assert(r[p.len() as int] == last);
            }
        }
    }
}

/// A projection has the value of each listed field, and no other field.
pub proof fn law_lookup_in_projection(
    fields: Seq<(Seq<char>, Datum)>,
    names: Seq<Seq<char>>,
    name: Seq<char>,
)
    requires
        names_sorted(fields),
    ensures
        lookup(projected(fields, names), name) == (if names.contains(name) {
            lookup(fields, name)
        } else {
            None
        }),
{
    lemma_projected(fields, names);
    let r = projected(fields, names);
    if exists|k: int| 0 <= k < r.len() && (#[trigger] r[k]).0 == name {
        let k = choose|k: int| 0 <= k < r.len() && (#[trigger] r[k]).0 == name;
        lemma_lookup_at(r, k);
        assert(fields.contains(r[k]));
        let i = choose|i: int| 0 <= i < fields.len() && fields[i] == r[k];
        lemma_lookup_at(fields, i);
    } else if names.contains(name) && exists|i: int|
        0 <= i < fields.len() && (#[trigger] fields[i]).0 == name {
        let i = choose|i: int| 0 <= i < fields.len() && (#[trigger] fields[i]).0 == name;
        assert(r.contains(fields[i]));
    }
}

/// Whether one of the names is `name`.
pub fn contains_name(names: &[String], name: &String) -> (r: bool)
    ensures
        r == texts(names@).contains(name@),
{
    let n: usize = names.len();
    let mut i: usize = 0;
    while i < n
        invariant
            n == names@.len(),
            i <= n,
            forall|j: int| 0 <= j < i ==> texts(names@)[j] != name@,
        decreases n - i,
    {
        if names[i] == *name {
            assert(texts(names@)[i as int] == name@);
            return true;
        }
        i += 1;
    }
    false
}

/// A copy of some names.
pub fn copy_names(names: &[String]) -> (copy: Vec<String>)
    ensures
        texts(copy@) == texts(names@),
{
    let n: usize = names.len();
    let mut copy: Vec<String> = Vec::new();
    let mut i: usize = 0;
    while i < n
        invariant
            n == names@.len(),
            i <= n,
            copy@.len() == i,
            forall|j: int| 0 <= j < i ==> (#[trigger] copy@[j])@ == names@[j]@,
        decreases n - i,
    {
        copy.push(names[i].clone());
        i += 1;
    }
    assert(texts(copy@) =~= texts(names@));
    copy
}

/// Whether two lists of names are the same.
pub fn same_names(a: &[String], b: &[String]) -> (r: bool)
    ensures
        r == (texts(a@) == texts(b@)),
{
    let n: usize = a.len();
    if n != b.len() {
        assert(texts(a@).len() != texts(b@).len());
        return false;
    }
    let mut i: usize = 0;
    while i < n
        invariant
            n == a@.len(),
            n == b@.len(),
            i <= n,
            forall|j: int| 0 <= j < i ==> texts(a@)[j] == texts(b@)[j],
        decreases n - i,
    {
        if a[i] != b[i] {
            assert(texts(a@)[i as int] != texts(b@)[i as int]);
            return false;
        }
        i += 1;
    }
    assert(texts(a@) =~= texts(b@));
    true
}

impl Fields {
    /// The fields whose names are listed.
    pub fn project(&self, names: &[String]) -> (r: Self)
        ensures
            r@ == projected(self@, texts(names@)),
    {
        proof {
            use_type_invariant(self);
            lemma_projected(self@, texts(names@));
        }
        let n: usize = self.entries.len();
        let mut entries: Vec<(String, Value)> = Vec::new();
        let mut i: usize = 0;
        while i < n
            invariant
                n == self.entries@.len(),
                i <= n,
                field_views(entries@) == projected(self@.take(i as int), texts(names@)),
            decreases n - i,
        {
            let ghost before = entries@;
            assert(self@.take(i + 1).drop_last() =~= self@.take(i as int));
            assert(self@.take(i + 1).last() == self@[i as int]);
            if contains_name(names, &self.entries[i].0) {
                entries.push((self.entries[i].0.clone(), self.entries[i].1.clone()));
                assert(field_views(entries@) =~= field_views(before).push(self@[i as int]));
            }
            i += 1;
        }
        assert(self@.take(n as int) =~= self@);
        Fields { entries }
    }

    /// Sets each pair in turn: the last pair of a name wins.
    pub fn from_pairs<K: FieldName>(pairs: Vec<(K, Value)>) -> (r: Self)
        ensures
            r@ == collected(pair_views(pairs@)),
    {
        let ghost views = pair_views(pairs@);
        let mut fields = Fields::new();
        assert(views.take(0) =~= seq![]);
        for pair in iter: pairs
            invariant
                iter.seq() == pairs@,
                views == pair_views(pairs@),
                fields@ == collected(views.take(iter.index())),
        {
            fields.insert(pair.0.into_name(), pair.1);
            proof {
                let i = iter.index();
                assert(views.take(i + 1).drop_last() =~= views.take(i));
                assert(views.take(i + 1).last() == views[i]);
            }
        }
        assert(views.take(views.len() as int) =~= views);
        fields
    }
}

/// Whether no name occurs twice.
pub open spec fn names_distinct(pairs: Seq<(Seq<char>, Datum)>) -> bool {
    forall|i: int, j: int|
        0 <= i < j < pairs.len() ==> (#[trigger] pairs[i]).0 != (#[trigger] pairs[j]).0
}

/// Collected pairs with distinct names hold each pair and nothing else.
proof fn lemma_collected_lookup(pairs: Seq<(Seq<char>, Datum)>, name: Seq<char>)
    requires
        names_distinct(pairs),
    ensures
        match lookup(collected(pairs), name) {
            Some(value) => pairs.contains((name, value)),
            None => forall|i: int| 0 <= i < pairs.len() ==> (#[trigger] pairs[i]).0 != name,
        },
    decreases pairs.len(),
{
    if pairs.len() > 0 {
        let init = pairs.drop_last();
        let last = pairs.last();
        assert forall|i: int, j: int| 0 <= i < j < init.len() implies (#[trigger] init[i]).0 != (
        #[trigger] init[j]).0 by {
            assert(pairs[i] == init[i] && pairs[j] == init[j]);
        }
        lemma_collected_lookup(init, name);
        lemma_collected_sorted(init);
        law_lookup_after_set(collected(init), last.0, last.1, name);
        if name == last.0 {
            assert(pairs[pairs.len() - 1] == (name, last.1));
        } else {
            match lookup(collected(init), name) {
                Some(value) => {
                    let i = choose|i: int| 0 <= i < init.len() && init[i] == (name, value);
                    assert(pairs[i] == (name, value));
                },
                None => {
                    assert forall|i: int| 0 <= i < pairs.len() implies (#[trigger] pairs[i]).0
                        != name by {
                        if i < init.len() {
                            assert(pairs[i] == init[i]);
                        }
                    }
                },
            }
        }
    }
}

proof fn lemma_same_at(a: Seq<(Seq<char>, Datum)>, b: Seq<(Seq<char>, Datum)>, i: int)
    requires
        names_sorted(a),
        names_sorted(b),
        forall|k: int| 0 <= k < a.len() ==> #[trigger] b.contains(a[k]),
        forall|k: int| 0 <= k < b.len() ==> #[trigger] a.contains(b[k]),
        0 <= i < a.len(),
        i < b.len(),
    ensures
        a[i] == b[i],
    decreases i,
{
    assert forall|m: int| 0 <= m < i implies a[m] == b[m] by {
        lemma_same_at(a, b, m);
    }
    assert(b.contains(a[i]));
    assert(a.contains(b[i]));
    let j = choose|j: int| 0 <= j < b.len() && b[j] == a[i];
    let k = choose|k: int| 0 <= k < a.len() && a[k] == b[i];
    lemma_name_order(a[i].0, b[i].0, a[i].0);
    if j < i {
        assert(name_lt(a[j].0, a[i].0));
    } else if k < i {
        assert(name_lt(b[k].0, b[i].0));
        lemma_name_order(b[i].0, b[i].0, b[i].0);
    } else if j > i && k > i {
        assert(name_lt(b[i].0, b[j].0));
        assert(name_lt(a[i].0, a[k].0));
    }
}

/// Sorted fields with the same entries are the same.
pub proof fn lemma_same_fields(a: Seq<(Seq<char>, Datum)>, b: Seq<(Seq<char>, Datum)>)
    requires
        names_sorted(a),
        names_sorted(b),
        forall|k: int| 0 <= k < a.len() ==> #[trigger] b.contains(a[k]),
        forall|k: int| 0 <= k < b.len() ==> #[trigger] a.contains(b[k]),
    ensures
        a == b,
{
    assert forall|i: int| 0 <= i < a.len() && i < b.len() implies a[i] == b[i] by {
        lemma_same_at(a, b, i);
    }
    if a.len() < b.len() {
        assert(a.contains(b[a.len() as int]));
        let k = choose|k: int| 0 <= k < a.len() && a[k] == b[a.len() as int];
        assert(name_lt(b[k].0, b[a.len() as int].0));
        lemma_name_order(b[k].0, b[k].0, b[k].0);
    } else if b.len() < a.len() {
        assert(b.contains(a[b.len() as int]));
        let k = choose|k: int| 0 <= k < b.len() && b[k] == a[b.len() as int];
        assert(name_lt(a[k].0, a[b.len() as int].0));
        lemma_name_order(a[k].0, a[k].0, a[k].0);
    }
    assert(a =~= b);
}

/// Collecting sorted fields in any order gives them back.
pub proof fn lemma_collect_permuted(fields: Seq<(Seq<char>, Datum)>, order: Seq<int>)
    requires
        names_sorted(fields),
        order.len() == fields.len(),
        forall|i: int| 0 <= i < order.len() ==> 0 <= #[trigger] order[i] < fields.len(),
        forall|k: int| 0 <= k < fields.len() ==> #[trigger] order.contains(k),
        forall|i: int, j: int|
            0 <= i < j < order.len() ==> #[trigger] order[i] != #[trigger] order[j],
    ensures
        collected(Seq::new(order.len(), |i: int| fields[order[i]])) == fields,
{
    let pairs = Seq::new(order.len(), |i: int| fields[order[i]]);
    let c = collected(pairs);
    lemma_collected_sorted(pairs);
    assert forall|i: int, j: int| 0 <= i < j < pairs.len() implies (#[trigger] pairs[i]).0 != (
    #[trigger] pairs[j]).0 by {
        let x = order[i];
        let y = order[j];
        lemma_name_order(fields[x].0, fields[y].0, fields[x].0);
        if x < y {
            assert(name_lt(fields[x].0, fields[y].0));
        } else {
            assert(name_lt(fields[y].0, fields[x].0));
        }
    }
    assert forall|k: int| 0 <= k < c.len() implies #[trigger] fields.contains(c[k]) by {
        lemma_lookup_at(c, k);
        lemma_collected_lookup(pairs, c[k].0);
        let i = choose|i: int| 0 <= i < pairs.len() && pairs[i] == (c[k].0, c[k].1);
        assert(fields[order[i]] == c[k]);
    }
    assert forall|k: int| 0 <= k < fields.len() implies #[trigger] c.contains(fields[k]) by {
        assert(order.contains(k));
        let i = choose|i: int| 0 <= i < order.len() && order[i] == k;
        assert(pairs[i] == fields[k]);
        lemma_collected_lookup(pairs, fields[k].0);
        let value = lookup(c, fields[k].0)->Some_0;
        let j = choose|j: int| 0 <= j < pairs.len() && pairs[j] == (fields[k].0, value);
        assert(i == j);
        let m = choose|m: int| 0 <= m < c.len() && (#[trigger] c[m]).0 == fields[k].0;
        assert(c[m] == fields[k]);
    }
    lemma_same_fields(c, fields);
}

} // verus!
