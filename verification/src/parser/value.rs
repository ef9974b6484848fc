//! The value tree: what a document holds once it is parsed.

use super::document::{
    entries_have_list, entries_plain, lemma_entry_has_no_list, node_has_list, node_plain,
    node_value, object_value, Entry, Node,
};
use crate::tokenizer::token::TokenView;
use vstd::prelude::*;
use vstd::std_specs::cmp::PartialEqSpecImpl;
use vstd::string::*;
use vstd::utf8::encode_utf8_decode_utf8;

verus! {

/// The mathematical content of a [`HuonValue`]: text as sequences of
/// characters, a list as a sequence, an object as a map from keys to values.
pub enum ValueView {
    String(Seq<char>),
    Int(i64),
    Float(Seq<char>),
    Boolean(bool),
    Null,
    List(Seq<ValueView>),
    Object(Map<Seq<char>, ValueView>),
}

/// A parsed document fragment.
///
/// Text borrows from the input it was parsed from. A floating-point number
/// is held as the text of its literal. Two values are equal if they hold the
/// same, see `same_content`.
#[derive(Debug)]
pub enum HuonValue<'a> {
    String(&'a str),
    Int(i64),
    Float(&'a str),
    Boolean(bool),
    Null,
    List(Vec<HuonValue<'a>>),
    Object(ValueMap<'a>),
}

/// The entries of an object. Every key occurs once; the entries are kept in
/// the order in which their keys first came. Two objects are equal if they
/// hold the same values under the same keys, in whatever order.
#[derive(Debug)]
pub struct ValueMap<'a> {
    entries: Vec<(&'a str, HuonValue<'a>)>,
}

/// The map that a sequence of entries builds up: a later entry replaces an
/// earlier one with the same key.
pub open spec fn fold_entries(entries: Seq<(Seq<char>, ValueView)>) -> Map<Seq<char>, ValueView>
    decreases entries.len(),
{
    if entries.len() == 0 {
        Map::empty()
    } else {
        fold_entries(entries.drop_last()).insert(entries.last().0, entries.last().1)
    }
}

/// Whether no key occurs twice among the entries.
pub open spec fn distinct_keys(entries: Seq<(Seq<char>, ValueView)>) -> bool {
    forall|i: int, j: int|
        0 <= i < entries.len() && 0 <= j < entries.len() && i != j ==> (#[trigger] entries[i]).0
            != (#[trigger] entries[j]).0
}

/// Entries with distinct keys have distinct keys without the last of them.
pub proof fn lemma_distinct_front(entries: Seq<(Seq<char>, ValueView)>)
    requires
        distinct_keys(entries),
        entries.len() > 0,
    ensures
        distinct_keys(entries.drop_last()),
{
    let front = entries.drop_last();
    assert forall|a: int, b: int|
        0 <= a < front.len() && 0 <= b < front.len() && a != b implies (#[trigger] front[a]).0 != (
    #[trigger] front[b]).0 by {
        assert(front[a] == entries[a] && front[b] == entries[b]);
    }
}

/// The keys of the folded map are the keys of the entries.
pub proof fn lemma_fold_entries_keys(entries: Seq<(Seq<char>, ValueView)>, key: Seq<char>)
    ensures
        fold_entries(entries).contains_key(key) <==> exists|i: int|
            0 <= i < entries.len() && (#[trigger] entries[i]).0 == key,
        fold_entries(entries).dom().finite(),
    decreases entries.len(),
{
    if entries.len() > 0 {
        let front = entries.drop_last();
        lemma_fold_entries_keys(front, key);
        if fold_entries(entries).contains_key(key) {
            if entries.last().0 == key {
                assert(entries[entries.len() - 1].0 == key);
            } else {
                let i = choose|i: int| 0 <= i < front.len() && (#[trigger] front[i]).0 == key;
                assert(entries[i].0 == key);
            }
        }
        if exists|i: int| 0 <= i < entries.len() && (#[trigger] entries[i]).0 == key {
            let i = choose|i: int| 0 <= i < entries.len() && (#[trigger] entries[i]).0 == key;
            if i < entries.len() - 1 {
                assert(front[i].0 == key);
            }
        }
    }
}

/// With distinct keys, each entry is found in the folded map.
pub proof fn lemma_fold_entries_get(entries: Seq<(Seq<char>, ValueView)>, i: int)
    requires
        distinct_keys(entries),
        0 <= i < entries.len(),
    ensures
        fold_entries(entries).contains_key(entries[i].0),
        fold_entries(entries)[entries[i].0] == entries[i].1,
    decreases entries.len(),
{
    let front = entries.drop_last();
    if i < entries.len() - 1 {
        lemma_distinct_front(entries);
        lemma_fold_entries_get(front, i);
        assert(front[i] == entries[i]);
        assert(entries[entries.len() - 1].0 != entries[i].0);
    }
}

/// With distinct keys, the folded map has as many keys as there are entries.
pub proof fn lemma_fold_entries_len(entries: Seq<(Seq<char>, ValueView)>)
    requires
        distinct_keys(entries),
    ensures
        fold_entries(entries).dom().finite(),
        fold_entries(entries).dom().len() == entries.len(),
    decreases entries.len(),
{
    if entries.len() > 0 {
        let front = entries.drop_last();
        let key = entries.last().0;
        lemma_distinct_front(entries);
        lemma_fold_entries_len(front);
        lemma_fold_entries_keys(front, key);
        assert(!fold_entries(front).contains_key(key)) by {
            if fold_entries(front).contains_key(key) {
                let i = choose|i: int| 0 <= i < front.len() && (#[trigger] front[i]).0 == key;
                assert(entries[i].0 == entries[entries.len() - 1].0);
            }
        }
        assert(fold_entries(entries).dom() =~= fold_entries(front).dom().insert(key));
    }
}

/// Replacing the value of an entry is an insertion under its key.
pub proof fn lemma_fold_entries_update(
    entries: Seq<(Seq<char>, ValueView)>,
    i: int,
    value: ValueView,
)
    requires
        distinct_keys(entries),
        0 <= i < entries.len(),
    ensures
        fold_entries(entries.update(i, (entries[i].0, value))) == fold_entries(entries).insert(
            entries[i].0,
            value,
        ),
    decreases entries.len(),
{
    let key = entries[i].0;
    let updated = entries.update(i, (key, value));
    let front = entries.drop_last();
    if i == entries.len() - 1 {
        assert(updated.drop_last() == front);
        assert(fold_entries(updated) == fold_entries(entries).insert(key, value));
    } else {
        lemma_distinct_front(entries);
        lemma_fold_entries_update(front, i, value);
        assert(front[i] == entries[i]);
        assert(updated.drop_last() == front.update(i, (key, value)));
        assert(updated.last() == entries.last());
        assert(entries[entries.len() - 1].0 != key);
        assert(fold_entries(updated) == fold_entries(entries).insert(key, value));
    }
}

/// Tells whether two texts hold the same characters.
pub fn str_eq(a: &str, b: &str) -> (same: bool)
    ensures
        same == (a@ == b@),
{
    let x = a.as_bytes();
    let y = b.as_bytes();
    proof {
        encode_utf8_decode_utf8(a@);
        encode_utf8_decode_utf8(b@);
    }
    if x.len() != y.len() {
        return false;
    }
    let mut i: usize = 0;
    while i < x.len()
        invariant
            i <= x.len(),
            x.len() == y.len(),
            forall|j: int| 0 <= j < i ==> x@[j] == y@[j],
            x@ == a.spec_bytes(),
            y@ == b.spec_bytes(),
        decreases x.len() - i,
    {
        if x[i] != y[i] {
            return false;
        }
        i += 1;
    }
    assert(x@ =~= y@);
    true
}

impl<'a> HuonValue<'a> {
    /// What the value holds, as mathematics.
    pub open spec fn content(self) -> ValueView
        decreases self,
    {
        match self {
            HuonValue::String(s) => ValueView::String(s@),
            HuonValue::Int(i) => ValueView::Int(i),
            HuonValue::Float(s) => ValueView::Float(s@),
            HuonValue::Boolean(b) => ValueView::Boolean(b),
            HuonValue::Null => ValueView::Null,
            HuonValue::List(items) => ValueView::List(
                Seq::new(
                    items@.len(),
                    |i: int|
                        if 0 <= i < items@.len() {
                            items@[i].content()
                        } else {
                            ValueView::Null
                        },
                ),
            ),
            HuonValue::Object(map) => ValueView::Object(fold_entries(map.entries())),
        }
    }
}

impl<'a> HuonValue<'a> {
    /// What the value is written as: a scalar as its token, an object as its
    /// entries in the order in which they are kept. A list, which cannot be
    /// written, stands for itself without its items.
    pub open spec fn node(self) -> Node
        decreases self, 0int,
    {
        match self {
            HuonValue::String(s) => Node::Scalar(TokenView::Str(s@)),
            HuonValue::Int(i) => Node::Scalar(TokenView::Int(i)),
            HuonValue::Float(f) => Node::Scalar(TokenView::Float(f@)),
            HuonValue::Boolean(b) => Node::Scalar(TokenView::Boolean(b)),
            HuonValue::Null => Node::Scalar(TokenView::Null),
            HuonValue::List(_) => Node::List(Seq::empty()),
            HuonValue::Object(map) => map.node(),
        }
    }

    /// A value without a list holds what its node holds.
    pub proof fn lemma_node_value(self)
        requires
            !node_has_list(self.node()),
        ensures
            node_value(self.node()) == self@,
        decreases self,
    {
        match self {
            HuonValue::Object(map) => {
                map.lemma_document_value();
            },
            _ => {},
        }
    }

    /// The node of a value is laid out in the plain way.
    pub proof fn lemma_node_plain(self)
        ensures
            node_plain(self.node()),
        decreases self,
    {
        match self {
            HuonValue::Object(map) => {
                map.lemma_document_plain(0);
            },
            _ => {},
        }
    }
}

/// Entries that are put into an object one by one build up what they fold
/// to.
pub proof fn lemma_object_value_is_fold(
    document: Seq<Entry>,
    entries: Seq<(Seq<char>, ValueView)>,
    from: int,
)
    requires
        document.len() == entries.len(),
        0 <= from <= entries.len(),
        forall|i: int|
            0 <= i < entries.len() ==> (#[trigger] document[i]).key == entries[i].0
                && node_value(document[i].node) == entries[i].1,
    ensures
        object_value(document, from, fold_entries(entries.take(from))) == fold_entries(entries),
    decreases entries.len() - from,
{
    if from == entries.len() {
        assert(entries.take(from) =~= entries);
    } else {
        let longer = entries.take(from + 1);
        assert(longer.drop_last() =~= entries.take(from));
        assert(longer.last() == entries[from]);
        assert(document[from].key == entries[from].0);
        lemma_object_value_is_fold(document, entries, from + 1);
    }
}

impl<'a> View for HuonValue<'a> {
    type V = ValueView;

    open spec fn view(&self) -> ValueView {
        self.content()
    }
}

/// The content of each value, in order.
pub open spec fn value_views(values: Seq<HuonValue<'_>>) -> Seq<ValueView> {
    Seq::new(values.len(), |i: int| values[i]@)
}

/// The key and the content of the value of each entry, in order.
pub open spec fn entry_views(entries: Seq<(&str, HuonValue<'_>)>) -> Seq<(Seq<char>, ValueView)> {
    Seq::new(entries.len(), |i: int| (entries[i].0@, entries[i].1@))
}

/// The content of a list is the content of its items.
pub proof fn lemma_list_view(items: Vec<HuonValue<'_>>)
    ensures
        HuonValue::List(items)@ == ValueView::List(value_views(items@)),
{
    assert(HuonValue::List(items)@->List_0 =~= value_views(items@));
}

impl<'a> View for ValueMap<'a> {
    type V = Map<Seq<char>, ValueView>;

    open spec fn view(&self) -> Map<Seq<char>, ValueView> {
        fold_entries(self.entries())
    }
}

impl<'a> ValueMap<'a> {
    #[verifier::type_invariant]
    spec fn inv(self) -> bool {
        distinct_keys(self.entries())
    }

    /// The entries in the order in which they are kept, each as its key and
    /// the content of its value.
    pub closed spec fn entries(self) -> Seq<(Seq<char>, ValueView)>
        decreases self,
    {
        Seq::new(
            self.entries@.len(),
            |i: int|
                if 0 <= i < self.entries@.len() {
                    (self.entries@[i].0@, self.entries@[i].1.content())
                } else {
                    (Seq::empty(), ValueView::Null)
                },
        )
    }

    /// An object without entries.
    pub fn new() -> (map: Self)
        ensures
            map.entries() == Seq::<(Seq<char>, ValueView)>::empty(),
            map.document() == Seq::<Entry>::empty(),
            map@ == Map::<Seq<char>, ValueView>::empty(),
    {
        let map = ValueMap { entries: Vec::new() };
        assert(map.entries() =~= Seq::empty());
        assert(map.document() =~= Seq::empty());
        map
    }

    /// The number of entries.
    pub fn len(&self) -> (n: usize)
        ensures
            n == self.entries().len(),
            n == self.document().len(),
    {
        self.entries.len()
    }

    /// Whether the object has no entry.
    pub fn is_empty(&self) -> (yes: bool)
        ensures
            yes == (self.entries().len() == 0),
    {
        self.entries.len() == 0
    }

    /// The place of `key` among the entries.
    fn position(&self, key: &str) -> (at: Option<usize>)
        ensures
            match at {
                Some(i) => i < self.entries().len() && self.entries()[i as int].0 == key@,
                None => forall|i: int|
                    0 <= i < self.entries().len() ==> (#[trigger] self.entries()[i]).0 != key@,
            },
    {
        let mut i: usize = 0;
        while i < self.entries.len()
            invariant
                i <= self.entries.len(),
                self.entries().len() == self.entries.len(),
                forall|j: int| 0 <= j < i ==> (#[trigger] self.entries()[j]).0 != key@,
            decreases self.entries.len() - i,
        {
            if str_eq(self.entries[i].0, key) {
                return Some(i);
            }
            i += 1;
        }
        None
    }

    /// Whether the object has an entry under `key`.
    pub fn contains_key(&self, key: &str) -> (yes: bool)
        ensures
            yes == self@.contains_key(key@),
    {
        proof {
            lemma_fold_entries_keys(self.entries(), key@);
        }
        self.position(key).is_some()
    }

    /// The value under `key`, if the object has that key.
    pub fn get(&self, key: &str) -> (found: Option<&HuonValue<'a>>)
        ensures
            match found {
                Some(value) => self@.contains_key(key@) && value@ == self@[key@],
                None => !self@.contains_key(key@),
            },
    {
        proof {
            use_type_invariant(self);
            lemma_fold_entries_keys(self.entries(), key@);
        }
        match self.position(key) {
            Some(i) => {
                proof {
                    lemma_fold_entries_get(self.entries(), i as int);
                }
                Some(&self.entries[i].1)
            },
            None => None,
        }
    }

    /// What the entries are written as, in the order in which they are
    /// kept: each on a line of its own, without blank lines.
    pub closed spec fn document(self) -> Seq<Entry>
        decreases self, 0int,
    {
        Seq::new(
            self.entries@.len(),
            |i: int|
                if 0 <= i < self.entries@.len() {
                    Entry {
                        key: self.entries@[i].0@,
                        node: self.entries@[i].1.node(),
                        blank_lines: 0,
                    }
                } else {
                    Entry { key: Seq::empty(), node: Node::List(Seq::empty()), blank_lines: 0 }
                },
        )
    }

    /// What the object is written as: a block one level below its key.
    pub open spec fn node(self) -> Node
        decreases self, 1int,
    {
        Node::Object { step: 1, entries: self.document() }
    }

    /// The document has the keys of the entries, in their order.
    pub proof fn lemma_document_keys(self)
        ensures
            self.document().len() == self.entries().len(),
            forall|i: int|
                0 <= i < self.entries().len() ==> (#[trigger] self.document()[i]).key
                    == self.entries()[i].0,
    {
    }

    /// An object without a list holds what its document holds.
    pub proof fn lemma_document_value(self)
        requires
            !entries_have_list(self.document(), 0),
        ensures
            object_value(self.document(), 0, Map::empty()) == self@,
        decreases self,
    {
        let document = self.document();
        let entries = self.entries();
        assert forall|i: int| 0 <= i < entries.len() implies (#[trigger] document[i]).key
            == entries[i].0 && node_value(document[i].node) == entries[i].1 by {
            lemma_entry_has_no_list(document, 0, i);
            self.entries@[i].1.lemma_node_value();
        }
        assert(entries.take(0) =~= Seq::<(Seq<char>, ValueView)>::empty());
        lemma_object_value_is_fold(document, entries, 0);
    }

    /// The document of an object is laid out in the plain way.
    pub proof fn lemma_document_plain(self, from: int)
        requires
            0 <= from,
        ensures
            entries_plain(self.document(), from),
        decreases self, self.document().len() - from,
    {
        if from < self.document().len() {
            self.entries@[from].1.lemma_node_plain();
            self.lemma_document_plain(from + 1);
        }
    }

    /// Hands out the entries, in the order in which they are kept.
    pub fn into_entries(self) -> (entries: Vec<(&'a str, HuonValue<'a>)>)
        ensures
            entry_views(entries@) == self.entries(),
    {
        assert(entry_views(self.entries@) =~= self.entries());
        self.entries
    }

    /// The entry at place `i` in the order in which the entries are kept.
    pub fn entry(&self, i: usize) -> (pair: (&'a str, &HuonValue<'a>))
        requires
            i < self.entries().len(),
        ensures
            (pair.0@, pair.1@) == self.entries()[i as int],
            self.document()[i as int] == (Entry {
                key: pair.0@,
                node: pair.1.node(),
                blank_lines: 0,
            }),
    {
        (self.entries[i].0, &self.entries[i].1)
    }

    /// Puts `value` under `key`. A value that stood under the same key is
    /// replaced, at its place among the entries, and handed back; a new key
    /// goes behind the others.
    pub fn insert(&mut self, key: &'a str, value: HuonValue<'a>) -> (replaced: Option<
        HuonValue<'a>,
    >)
        ensures
            final(self)@ == old(self)@.insert(key@, value@),
            match replaced {
                Some(before) => old(self)@.contains_key(key@) && before@ == old(self)@[key@],
                None => !old(self)@.contains_key(key@),
            },
            old(self)@.contains_key(key@) ==> exists|i: int|
                0 <= i < old(self).entries().len() && (#[trigger] old(self).entries()[i]).0 == key@
                    && final(self).entries() == old(self).entries().update(i, (key@, value@))
                    && final(self).document() == old(self).document().update(
                    i,
                    Entry { key: key@, node: value.node(), blank_lines: 0 },
                ),
            !old(self)@.contains_key(key@) ==> final(self).entries() == old(self).entries().push(
                (key@, value@),
            ) && final(self).document() == old(self).document().push(
                Entry { key: key@, node: value.node(), blank_lines: 0 },
            ),
    {
        proof {
            use_type_invariant(&*self);
            lemma_fold_entries_keys(self.entries(), key@);
        }
        let ghost before = self.entries();
        let ghost document = self.document();
        match self.position(key) {
            Some(i) => {
                let mut entries: Vec<(&'a str, HuonValue<'a>)> = Vec::new();
                std::mem::swap(&mut entries, &mut self.entries);
                let ghost kept = entries@;
                let old_entry = entries.remove(i);
                entries.insert(i, (key, value));
                proof {
                    lemma_fold_entries_get(before, i as int);
                    lemma_fold_entries_update(before, i as int, value@);
                    assert(entries@ =~= kept.update(i as int, (key, value)));
                    let next = ValueMap { entries };
                    let updated = before.update(i as int, (key@, value@));
                    assert(next.entries() =~= updated);
                    assert(distinct_keys(updated)) by {
                        assert forall|a: int, b: int|
                            0 <= a < updated.len() && 0 <= b < updated.len() && a != b implies (
                        #[trigger] updated[a]).0 != (#[trigger] updated[b]).0 by {
                            assert(updated[a].0 == before[a].0);
                            assert(updated[b].0 == before[b].0);
                        }
                    }
                }
                self.entries = entries;
                proof {
                    assert(self.entries() =~= before.update(i as int, (key@, value@)));
                    assert(self.document() =~= document.update(
                        i as int,
                        Entry { key: key@, node: value.node(), blank_lines: 0 },
                    ));
                }
                Some(old_entry.1)
            },
            None => {
                let mut entries: Vec<(&'a str, HuonValue<'a>)> = Vec::new();
                std::mem::swap(&mut entries, &mut self.entries);
                entries.push((key, value));
                proof {
                    let grown = before.push((key@, value@));
                    assert(distinct_keys(grown)) by {
                        assert forall|a: int, b: int|
                            0 <= a < grown.len() && 0 <= b < grown.len() && a != b implies (
                        #[trigger] grown[a]).0 != (#[trigger] grown[b]).0 by {
                            if a < before.len() {
                                assert(grown[a] == before[a]);
                            }
                            if b < before.len() {
                                assert(grown[b] == before[b]);
                            }
                        }
                    }
                    let next = ValueMap { entries };
                    assert(next.entries() =~= grown);
                }
                self.entries = entries;
                proof {
                    assert(self.entries() =~= before.push((key@, value@)));
                    assert(self.entries().drop_last() == before);
                    assert(self.document() =~= document.push(
                        Entry { key: key@, node: value.node(), blank_lines: 0 },
                    ));
                }
                None
            },
        }
    }
}

impl<'a> HuonValue<'a> {
    /// The value under `key` of an object.
    pub fn index(&self, key: &str) -> (value: &HuonValue<'a>)
        requires
            self@ is Object,
            self@->Object_0.contains_key(key@),
        ensures
            value@ == self@->Object_0[key@],
    {
        match self {
            HuonValue::Object(map) => match map.get(key) {
                Some(value) => value,
                None => unreached(),
            },
            _ => unreached(),
        }
    }
}

impl<'a> Clone for HuonValue<'a> {
    #[verifier::loop_isolation(false)]
    fn clone(&self) -> (copy: Self)
        ensures
            copy@ == self@,
        decreases self,
    {
        match self {
            HuonValue::String(s) => HuonValue::String(s),
            HuonValue::Int(i) => HuonValue::Int(*i),
            HuonValue::Float(f) => HuonValue::Float(f),
            HuonValue::Boolean(b) => HuonValue::Boolean(*b),
            HuonValue::Null => HuonValue::Null,
            HuonValue::List(items) => {
                let mut copies: Vec<HuonValue<'a>> = Vec::new();
                let mut i: usize = 0;
                while i < items.len()
                    invariant
                        i <= items.len(),
                        copies.len() == i,
                        forall|j: int| 0 <= j < i ==> copies@[j]@ == items@[j]@,
                    decreases items.len() - i,
                {
                    let item = items[i].clone();
                    copies.push(item);
                    i += 1;
                }
                proof {
                    lemma_list_view(copies);
                    lemma_list_view(*items);
                    assert(value_views(copies@) =~= value_views(items@));
                }
                HuonValue::List(copies)
            },
            HuonValue::Object(map) => {
                proof {
                    use_type_invariant(map);
                }
                let mut copies: Vec<(&'a str, HuonValue<'a>)> = Vec::new();
                let mut i: usize = 0;
                while i < map.entries.len()
                    invariant
                        i <= map.entries.len(),
                        copies.len() == i,
                        forall|j: int|
                            0 <= j < i ==> copies@[j].0@ == map.entries@[j].0@ && copies@[j].1@
                                == map.entries@[j].1@,
                    decreases map.entries.len() - i,
                {
                    let key = map.entries[i].0;
                    let item = map.entries[i].1.clone();
                    copies.push((key, item));
                    i += 1;
                }
                proof {
                    let copied = ValueMap { entries: copies };
                    assert(copied.entries() =~= map.entries());
                }
                HuonValue::Object(ValueMap { entries: copies })
            },
        }
    }
}

impl<'a> Clone for ValueMap<'a> {
    fn clone(&self) -> (copy: Self)
        ensures
            copy.entries() == self.entries(),
            copy@ == self@,
    {
        proof {
            use_type_invariant(self);
        }
        let mut copies: Vec<(&'a str, HuonValue<'a>)> = Vec::new();
        let mut i: usize = 0;
        while i < self.entries.len()
            invariant
                i <= self.entries.len(),
                copies.len() == i,
                forall|j: int|
                    0 <= j < i ==> copies@[j].0@ == self.entries@[j].0@ && copies@[j].1@
                        == self.entries@[j].1@,
            decreases self.entries.len() - i,
        {
            let key = self.entries[i].0;
            let item = self.entries[i].1.clone();
            copies.push((key, item));
            i += 1;
        }
        proof {
            let copied = ValueMap { entries: copies };
            assert(copied.entries() =~= self.entries());
        }
        ValueMap { entries: copies }
    }
}

impl<'a> HuonValue<'a> {
    /// Tells whether two values hold the same: scalars of the same kind with
    /// the same payload, lists with the same items in the same order, objects
    /// with the same values under the same keys, in whatever order they keep
    /// their entries. Floating-point numbers are the same if their literals
    /// are.
    #[verifier::loop_isolation(false)]
    pub fn same_content(&self, other: &HuonValue<'_>) -> (same: bool)
        ensures
            same == (self@ == other@),
        decreases self,
    {
        match (self, other) {
            (HuonValue::String(a), HuonValue::String(b)) => str_eq(a, b),
            (HuonValue::Int(a), HuonValue::Int(b)) => *a == *b,
            (HuonValue::Float(a), HuonValue::Float(b)) => str_eq(a, b),
            (HuonValue::Boolean(a), HuonValue::Boolean(b)) => *a == *b,
            (HuonValue::Null, HuonValue::Null) => true,
            (HuonValue::List(a), HuonValue::List(b)) => {
                proof {
                    lemma_list_view(*a);
                    lemma_list_view(*b);
                }
                if a.len() != b.len() {
                    proof {
                        assert(value_views(a@).len() != value_views(b@).len());
                    }
                    return false;
                }
                let mut i: usize = 0;
                while i < a.len()
                    invariant
                        i <= a.len(),
                        a.len() == b.len(),
                        forall|j: int| 0 <= j < i ==> a@[j]@ == b@[j]@,
                    decreases a.len() - i,
                {
                    if !a[i].same_content(&b[i]) {
                        proof {
                            assert(value_views(a@)[i as int] != value_views(b@)[i as int]);
                        }
                        return false;
                    }
                    i += 1;
                }
                proof {
                    assert(value_views(a@) =~= value_views(b@));
                }
                true
            },
            (HuonValue::Object(a), HuonValue::Object(b)) => a.same_content(b),
            _ => false,
        }
    }
}

impl<'a> ValueMap<'a> {
    /// Tells whether two objects hold the same values under the same keys,
    /// in whatever order they keep their entries.
    #[verifier::loop_isolation(false)]
    pub fn same_content(&self, other: &ValueMap<'_>) -> (same: bool)
        ensures
            same == (self@ == other@),
        decreases self,
    {
        proof {
            use_type_invariant(self);
            use_type_invariant(other);
            lemma_fold_entries_len(self.entries());
            lemma_fold_entries_len(other.entries());
        }
        if self.entries.len() != other.entries.len() {
            return false;
        }
        let mut i: usize = 0;
        while i < self.entries.len()
            invariant
                i <= self.entries.len(),
                forall|j: int|
                    0 <= j < i ==> other@.contains_key((#[trigger] self.entries()[j]).0)
                        && other@[self.entries()[j].0] == self.entries()[j].1,
            decreases self.entries.len() - i,
        {
            proof {
                lemma_fold_entries_get(self.entries(), i as int);
            }
            match other.get(self.entries[i].0) {
                None => {
                    return false;
                },
                Some(theirs) => {
                    if !self.entries[i].1.same_content(theirs) {
                        return false;
                    }
                },
            }
            i += 1;
        }
        proof {
            assert forall|key: Seq<char>| #[trigger] self@.dom().contains(key) implies other@.dom().contains(
                key,
            ) && other@[key] == self@[key] by {
                lemma_fold_entries_keys(self.entries(), key);
                let j = choose|j: int|
                    0 <= j < self.entries().len() && (#[trigger] self.entries()[j]).0 == key;
                lemma_fold_entries_get(self.entries(), j);
            }
            assert(self@.dom().subset_of(other@.dom()));
            vstd::set_lib::lemma_subset_equality(self@.dom(), other@.dom());
            assert(self@ =~= other@);
        }
        true
    }
}

impl<'a> PartialEq for HuonValue<'a> {
    fn eq(&self, other: &Self) -> (same: bool) {
        self.same_content(other)
    }
}

impl<'a> PartialEqSpecImpl for HuonValue<'a> {
    open spec fn obeys_eq_spec() -> bool {
        true
    }

    open spec fn eq_spec(&self, other: &Self) -> bool {
        self@ == other@
    }
}

impl<'a> PartialEq for ValueMap<'a> {
    fn eq(&self, other: &Self) -> (same: bool) {
        self.same_content(other)
    }
}

impl<'a> PartialEqSpecImpl for ValueMap<'a> {
    open spec fn obeys_eq_spec() -> bool {
        true
    }

    open spec fn eq_spec(&self, other: &Self) -> bool {
        self@ == other@
    }
}

} // verus!
