use vstd::prelude::*;

use crate::json_utils::json_value::{RenderedValue, ToUI, ValueType};
use crate::json_utils::{get_value_count, json_document, validate_json_value};
use crate::text::trimmed;
use crate::text_filter::{pattern_matches, TextFilter};
use crate::ui_handles::SetErrors;
use crate::text::{
    decimal, decimal_string, decimal_value, json_escape, json_quote, json_string_literal,
    lemma_decimal_reads_back,
};
use crate::json_tree::{
    items_count, lemma_items_count_prefix, lemma_members_count_prefix, members_count, value_count,
    JsonLeaf, JsonTree,
};

verus! {

/// A flattened JSON document with the entries that the current filter selects.
#[derive(Debug)]
pub struct JsonEnviroment {
    pub path: String,
    pub entries: Vec<Entry>,
    pub filtered_indicies: Vec<EntryId>,
}

/// The position of an entry in `JsonEnviroment::entries`.
#[derive(Debug)]
pub struct EntryId(pub usize);

/// How an entry is reached from its parent.
#[derive(Debug)]
pub enum JsonIndex {
    Root,
    Index(usize),
    Key(String),
}

/// What an entry holds: a scalar, or the head of an array or object whose
/// elements follow it in the entry list.
#[derive(Debug)]
pub enum JsonValue {
    Value(JsonLeaf),
    Array(List),
    Object(List),
}

/// The head of an array or object: its number of elements and whether it is folded.
#[derive(Debug)]
pub struct List {
    pub size: usize,
    pub is_folded: bool,
}

impl List {
    /// A folded container head with `size` elements.
    pub fn new(size: usize) -> (list: Self)
        ensures
            list == (List { size, is_folded: true }),
    {
        List { size, is_folded: true }
    }
}

/// One value of the flattened document.
#[derive(Debug)]
pub struct Entry {
    pub parent: usize,
    pub index: JsonIndex,
    pub value: JsonValue,
    pub level: usize,
}

/// The entries that a document contributes when it is flattened at position
/// `base`, reached by `index` from the entry at `parent`, at depth `level`:
/// the document's own entry first, then the entries of its elements in order.
pub open spec fn flatten(t: JsonTree, index: JsonIndex, level: usize, parent: usize, base: nat) -> Seq<Entry>
    decreases t,
{
    match t {
        JsonTree::Leaf(leaf) => seq![Entry { parent, index, value: JsonValue::Value(leaf), level }],
        JsonTree::Array(items) => seq![
            Entry {
                parent,
                index,
                value: JsonValue::Array(List { size: items.len(), is_folded: true }),
                level,
            },
        ] + flatten_items(items@, (level + 1) as usize, base as usize, base + 1),
        JsonTree::Object(members) => seq![
            Entry {
                parent,
                index,
                value: JsonValue::Object(List { size: members.len(), is_folded: true }),
                level,
            },
        ] + flatten_members(members@, (level + 1) as usize, base as usize, base + 1),
    }
}

/// The entries of the elements of an array, flattened one after the other from position `base`.
pub open spec fn flatten_items(s: Seq<JsonTree>, level: usize, parent: usize, base: nat) -> Seq<Entry>
    decreases s,
{
    if s.len() == 0 {
        seq![]
    } else {
        let prefix = flatten_items(s.drop_last(), level, parent, base);
        prefix + flatten(
            s.last(),
            JsonIndex::Index((s.len() - 1) as usize),
            level,
            parent,
            base + prefix.len(),
        )
    }
}

/// The entries of the members of an object, flattened one after the other from position `base`.
pub open spec fn flatten_members(s: Seq<(String, JsonTree)>, level: usize, parent: usize, base: nat) -> Seq<Entry>
    decreases s,
{
    if s.len() == 0 {
        seq![]
    } else {
        let prefix = flatten_members(s.drop_last(), level, parent, base);
        prefix + flatten(s.last().1, JsonIndex::Key(s.last().0), level, parent, base + prefix.len())
    }
}


/// A flattened document has exactly one entry per value.
pub proof fn lemma_flatten_len(t: JsonTree, index: JsonIndex, level: usize, parent: usize, base: nat)
    ensures
        flatten(t, index, level, parent, base).len() == value_count(t),
    decreases t,
{
    match t {
        JsonTree::Leaf(_) => {},
        JsonTree::Array(items) => {
            lemma_flatten_items_len(items@, (level + 1) as usize, base as usize, base + 1);
        },
        JsonTree::Object(members) => {
            lemma_flatten_members_len(members@, (level + 1) as usize, base as usize, base + 1);
        },
    }
}

proof fn lemma_flatten_items_len(s: Seq<JsonTree>, level: usize, parent: usize, base: nat)
    ensures
        flatten_items(s, level, parent, base).len() == items_count(s),
    decreases s,
{
    if s.len() > 0 {
        let prefix = flatten_items(s.drop_last(), level, parent, base);
        lemma_flatten_items_len(s.drop_last(), level, parent, base);
        lemma_flatten_len(
            s.last(),
            JsonIndex::Index((s.len() - 1) as usize),
            level,
            parent,
            base + prefix.len(),
        );
    }
}

proof fn lemma_flatten_members_len(s: Seq<(String, JsonTree)>, level: usize, parent: usize, base: nat)
    ensures
        flatten_members(s, level, parent, base).len() == members_count(s),
    decreases s,
{
    if s.len() > 0 {
        let prefix = flatten_members(s.drop_last(), level, parent, base);
        lemma_flatten_members_len(s.drop_last(), level, parent, base);
        lemma_flatten_len(s.last().1, JsonIndex::Key(s.last().0), level, parent, base + prefix.len());
    }
}

impl Entry {
    /// The entry with its value replaced.
    pub open spec fn with_value(self, value: JsonValue) -> Entry {
        Entry { value, ..self }
    }

    /// The entry with its index replaced.
    pub open spec fn with_index(self, index: JsonIndex) -> Entry {
        Entry { index, ..self }
    }

    /// The position of the entry's parent.
    pub fn parent(&self) -> (r: &usize)
        ensures
            *r == self.parent,
    {
        &self.parent
    }

    /// How the entry is reached from its parent.
    pub fn index(&self) -> (r: &JsonIndex)
        ensures
            *r == self.index,
    {
        &self.index
    }

    /// What the entry holds.
    pub fn value(&self) -> (r: &JsonValue)
        ensures
            *r == self.value,
    {
        &self.value
    }

    /// The depth of the entry.
    pub fn level(&self) -> (r: &usize)
        ensures
            *r == self.level,
    {
        &self.level
    }
}

/// The text shown for a scalar.
pub open spec fn leaf_text(leaf: JsonLeaf) -> Seq<char> {
    match leaf {
        JsonLeaf::Null => "null"@,
        JsonLeaf::Bool(b) => if b {
            "true"@
        } else {
            "false"@
        },
        JsonLeaf::Number(n) => n@,
        JsonLeaf::String(s) => json_string_literal(s@),
    }
}

/// The text shown as an entry's value: a scalar's JSON text, or the opening
/// bracket of an array or object.
pub open spec fn entry_text(e: Entry) -> Seq<char> {
    match e.value {
        JsonValue::Value(leaf) => leaf_text(leaf),
        JsonValue::Array(_) => "["@,
        JsonValue::Object(_) => "{"@,
    }
}

/// The name shown for an entry: nothing for the root, the position of an
/// array element in decimal, the key of an object member in double quotes.
pub open spec fn entry_name(e: Entry) -> Seq<char> {
    match e.index {
        JsonIndex::Root => Seq::empty(),
        JsonIndex::Index(i) => decimal(i as nat),
        JsonIndex::Key(k) => "\""@ + k@ + "\""@,
    }
}

/// The kind of value an entry holds.
pub open spec fn entry_value_type(e: Entry) -> ValueType {
    match e.value {
        JsonValue::Array(_) => ValueType::Array,
        JsonValue::Object(_) => ValueType::Object,
        JsonValue::Value(JsonLeaf::Null) => ValueType::Null,
        JsonValue::Value(JsonLeaf::Number(_)) => ValueType::Number,
        JsonValue::Value(JsonLeaf::Bool(_)) => ValueType::Bool,
        JsonValue::Value(JsonLeaf::String(_)) => ValueType::String,
    }
}

/// `row` shows entry `e` under the row identifier `id`, marked `in_filter`.
pub open spec fn renders(row: RenderedValue, e: Entry, id: usize, in_filter: bool) -> bool {
    &&& row.level == e.level
    &&& row.name@ == entry_name(e)
    &&& row.value@ == entry_text(e)
    &&& row.value_type == entry_value_type(e)
    &&& row.id == id
    &&& row.in_filter == in_filter
    &&& row.has_key == (e.index is Key)
}

impl ToUI for Entry {
    /// The row for this entry, not marked as selected by the filter.
    fn to_ui(&self, id: usize) -> (row: RenderedValue)
        ensures
            renders(row, *self, id, false),
    {
        let value = match &self.value {
            JsonValue::Value(leaf) => match leaf {
                JsonLeaf::Null => String::from_str("null"),
                JsonLeaf::Bool(b) => if *b {
                    String::from_str("true")
                } else {
                    String::from_str("false")
                },
                JsonLeaf::Number(n) => String::from_str(n.as_str()),
                JsonLeaf::String(s) => json_quote(s.as_str()),
            },
            JsonValue::Array(_) => String::from_str("["),
            JsonValue::Object(_) => String::from_str("{"),
        };
        let value_type = self.value_type();
        let mut has_key = false;
        let name = match &self.index {
            JsonIndex::Root => String::new(),
            JsonIndex::Index(index) => decimal_string(*index),
            JsonIndex::Key(key) => {
                has_key = true;
                let mut quoted = String::from_str("\"");
                quoted.append(key.as_str());
                quoted.append("\"");
                quoted
            },
        };
        RenderedValue { level: self.level, name, value, value_type, id, in_filter: false, has_key }
    }

    /// The kind of value this entry holds.
    fn value_type(&self) -> (t: ValueType)
        ensures
            t == entry_value_type(*self),
    {
        match &self.value {
            JsonValue::Array(_) => ValueType::Array,
            JsonValue::Object(_) => ValueType::Object,
            JsonValue::Value(v) => match v {
                JsonLeaf::Null => ValueType::Null,
                JsonLeaf::Number(_) => ValueType::Number,
                JsonLeaf::Bool(_) => ValueType::Bool,
                JsonLeaf::String(_) => ValueType::String,
            },
        }
    }
}

/// Whether an entry holds an array or an object.
pub open spec fn is_container(v: JsonValue) -> bool {
    v is Array || v is Object
}

/// Entry `k` of `e` hangs below an earlier entry of `e` (positions in `e`
/// start at `base`): an array or object one level up, which reaches it by
/// position if it is an array and by key if it is an object.
pub open spec fn hangs_below_earlier(e: Seq<Entry>, base: nat, k: int) -> bool {
    let q = e[k].parent - base;
    &&& 0 <= q < k
    &&& is_container(e[q].value)
    &&& e[k].level == e[q].level + 1
    &&& (e[q].value is Array ==> e[k].index is Index)
    &&& (e[q].value is Object ==> e[k].index is Key)
}

/// A flattened document is shaped as its tree: its first entry is the
/// document's own, and every other entry hangs below an earlier one; every
/// depth lies between `level` and `level` plus the entry's position.
pub proof fn lemma_flatten_shape(t: JsonTree, index: JsonIndex, level: usize, parent: usize, base: nat)
    requires
        level + value_count(t) <= usize::MAX,
        base + value_count(t) <= usize::MAX,
    ensures
        ({
            let e = flatten(t, index, level, parent, base);
            &&& e.len() >= 1
            &&& e[0].parent == parent
            &&& e[0].index == index
            &&& e[0].level == level
            &&& forall|k: int| 0 < k < e.len() ==> #[trigger] hangs_below_earlier(e, base, k)
            &&& forall|k: int| 0 <= k < e.len() ==> level <= #[trigger] e[k].level <= level + k
        }),
    decreases t,
{
    let e = flatten(t, index, level, parent, base);
    match t {
        JsonTree::Leaf(_) => {},
        JsonTree::Array(items) => {
            let fi = flatten_items(items@, (level + 1) as usize, base as usize, base + 1);
            lemma_flatten_items_shape(items@, (level + 1) as usize, base as usize, base + 1);
            assert forall|k: int| 0 < k < e.len() implies #[trigger] hangs_below_earlier(e, base, k) by {
                assert(e[k] == fi[k - 1]);
                if fi[k - 1].parent != base as usize {
                    assert(hangs_below_earlier(fi, base + 1, k - 1));
                    let q = fi[k - 1].parent - (base + 1);
                    assert(e[q + 1] == fi[q]);
                }
            }
            assert forall|k: int| 0 <= k < e.len() implies level <= #[trigger] e[k].level <= level + k by {
                if k > 0 {
                    assert(e[k] == fi[k - 1]);
                }
            }
        },
        JsonTree::Object(members) => {
            let fm = flatten_members(members@, (level + 1) as usize, base as usize, base + 1);
            lemma_flatten_members_shape(members@, (level + 1) as usize, base as usize, base + 1);
            assert forall|k: int| 0 < k < e.len() implies #[trigger] hangs_below_earlier(e, base, k) by {
                assert(e[k] == fm[k - 1]);
                if fm[k - 1].parent != base as usize {
                    assert(hangs_below_earlier(fm, base + 1, k - 1));
                    let q = fm[k - 1].parent - (base + 1);
                    assert(e[q + 1] == fm[q]);
                }
            }
            assert forall|k: int| 0 <= k < e.len() implies level <= #[trigger] e[k].level <= level + k by {
                if k > 0 {
                    assert(e[k] == fm[k - 1]);
                }
            }
        },
    }
}

proof fn lemma_flatten_items_shape(s: Seq<JsonTree>, level: usize, parent: usize, base: nat)
    requires
        level + items_count(s) <= usize::MAX,
        base + items_count(s) <= usize::MAX,
    ensures
        ({
            let e = flatten_items(s, level, parent, base);
            forall|k: int|
                0 <= k < e.len() ==> {
                    ||| (#[trigger] e[k]).parent == parent && e[k].level == level && e[k].index is Index
                    ||| hangs_below_earlier(e, base, k)
                }
        }),
        forall|k: int|
            0 <= k < flatten_items(s, level, parent, base).len() ==> level <= #[trigger] flatten_items(
                s,
                level,
                parent,
                base,
            )[k].level <= level + k,
    decreases s,
{
    if s.len() > 0 {
        let e = flatten_items(s, level, parent, base);
        let p = flatten_items(s.drop_last(), level, parent, base);
        let f = flatten(s.last(), JsonIndex::Index((s.len() - 1) as usize), level, parent, base + p.len());
        assert(e == p + f);
        lemma_flatten_items_len(s.drop_last(), level, parent, base);
        lemma_flatten_items_shape(s.drop_last(), level, parent, base);
        lemma_flatten_shape(s.last(), JsonIndex::Index((s.len() - 1) as usize), level, parent, base + p.len());
        assert forall|k: int| 0 <= k < e.len() implies {
            ||| (#[trigger] e[k]).parent == parent && e[k].level == level && e[k].index is Index
            ||| hangs_below_earlier(e, base, k)
        } by {
            if k < p.len() {
                assert(e[k] == p[k]);
                if !(p[k].parent == parent && p[k].level == level && p[k].index is Index) {
                    assert(hangs_below_earlier(p, base, k));
                    let q = p[k].parent - base;
                    assert(e[q] == p[q]);
                }
            } else {
                let j = k - p.len();
                assert(e[k] == f[j]);
                if j > 0 {
                    assert(hangs_below_earlier(f, base + p.len(), j));
                    let q = f[j].parent - (base + p.len());
                    assert(e[q + p.len()] == f[q]);
                }
            }
        }
        assert forall|k: int| 0 <= k < e.len() implies level <= #[trigger] e[k].level <= level + k by {
            if k < p.len() {
                assert(e[k] == p[k]);
            } else {
                assert(e[k] == f[k - p.len()]);
            }
        }
    }
}

proof fn lemma_flatten_members_shape(s: Seq<(String, JsonTree)>, level: usize, parent: usize, base: nat)
    requires
        level + members_count(s) <= usize::MAX,
        base + members_count(s) <= usize::MAX,
    ensures
        ({
            let e = flatten_members(s, level, parent, base);
            forall|k: int|
                0 <= k < e.len() ==> {
                    ||| (#[trigger] e[k]).parent == parent && e[k].level == level && e[k].index is Key
                    ||| hangs_below_earlier(e, base, k)
                }
        }),
        forall|k: int|
            0 <= k < flatten_members(s, level, parent, base).len() ==> level <= #[trigger] flatten_members(
                s,
                level,
                parent,
                base,
            )[k].level <= level + k,
    decreases s,
{
    if s.len() > 0 {
        let e = flatten_members(s, level, parent, base);
        let p = flatten_members(s.drop_last(), level, parent, base);
        let f = flatten(s.last().1, JsonIndex::Key(s.last().0), level, parent, base + p.len());
        assert(e == p + f);
        lemma_flatten_members_len(s.drop_last(), level, parent, base);
        lemma_flatten_members_shape(s.drop_last(), level, parent, base);
        lemma_flatten_shape(s.last().1, JsonIndex::Key(s.last().0), level, parent, base + p.len());
        assert forall|k: int| 0 <= k < e.len() implies {
            ||| (#[trigger] e[k]).parent == parent && e[k].level == level && e[k].index is Key
            ||| hangs_below_earlier(e, base, k)
        } by {
            if k < p.len() {
                assert(e[k] == p[k]);
                if !(p[k].parent == parent && p[k].level == level && p[k].index is Key) {
                    assert(hangs_below_earlier(p, base, k));
                    let q = p[k].parent - base;
                    assert(e[q] == p[q]);
                }
            } else {
                let j = k - p.len();
                assert(e[k] == f[j]);
                if j > 0 {
                    assert(hangs_below_earlier(f, base + p.len(), j));
                    let q = f[j].parent - (base + p.len());
                    assert(e[q + p.len()] == f[q]);
                }
            }
        }
        assert forall|k: int| 0 <= k < e.len() implies level <= #[trigger] e[k].level <= level + k by {
            if k < p.len() {
                assert(e[k] == p[k]);
            } else {
                assert(e[k] == f[k - p.len()]);
            }
        }
    }
}

/// Every array and object among the entries is folded.
pub open spec fn all_folded(e: Seq<Entry>) -> bool {
    forall|k: int|
        0 <= k < e.len() ==> match (#[trigger] e[k]).value {
            JsonValue::Array(l) => l.is_folded,
            JsonValue::Object(l) => l.is_folded,
            JsonValue::Value(_) => true,
        }
}

/// Flattening folds every array and object.
pub proof fn lemma_flatten_folded(t: JsonTree, index: JsonIndex, level: usize, parent: usize, base: nat)
    ensures
        all_folded(flatten(t, index, level, parent, base)),
    decreases t,
{
    let e = flatten(t, index, level, parent, base);
    match t {
        JsonTree::Leaf(_) => {},
        JsonTree::Array(items) => {
            let fi = flatten_items(items@, (level + 1) as usize, base as usize, base + 1);
            lemma_flatten_items_folded(items@, (level + 1) as usize, base as usize, base + 1);
            assert forall|k: int| 0 < k < e.len() implies #[trigger] e[k] == fi[k - 1] by {}
        },
        JsonTree::Object(members) => {
            let fm = flatten_members(members@, (level + 1) as usize, base as usize, base + 1);
            lemma_flatten_members_folded(members@, (level + 1) as usize, base as usize, base + 1);
            assert forall|k: int| 0 < k < e.len() implies #[trigger] e[k] == fm[k - 1] by {}
        },
    }
}

proof fn lemma_flatten_items_folded(s: Seq<JsonTree>, level: usize, parent: usize, base: nat)
    ensures
        all_folded(flatten_items(s, level, parent, base)),
    decreases s,
{
    if s.len() > 0 {
        let p = flatten_items(s.drop_last(), level, parent, base);
        let f = flatten(s.last(), JsonIndex::Index((s.len() - 1) as usize), level, parent, base + p.len());
        lemma_flatten_items_folded(s.drop_last(), level, parent, base);
        lemma_flatten_folded(s.last(), JsonIndex::Index((s.len() - 1) as usize), level, parent, base + p.len());
        let e = p + f;
        assert forall|k: int| 0 <= k < e.len() implies #[trigger] e[k] == if k < p.len() {
            p[k]
        } else {
            f[k - p.len()]
        } by {}
    }
}

proof fn lemma_flatten_members_folded(s: Seq<(String, JsonTree)>, level: usize, parent: usize, base: nat)
    ensures
        all_folded(flatten_members(s, level, parent, base)),
    decreases s,
{
    if s.len() > 0 {
        let p = flatten_members(s.drop_last(), level, parent, base);
        let f = flatten(s.last().1, JsonIndex::Key(s.last().0), level, parent, base + p.len());
        lemma_flatten_members_folded(s.drop_last(), level, parent, base);
        lemma_flatten_folded(s.last().1, JsonIndex::Key(s.last().0), level, parent, base + p.len());
        let e = p + f;
        assert forall|k: int| 0 <= k < e.len() implies #[trigger] e[k] == if k < p.len() {
            p[k]
        } else {
            f[k - p.len()]
        } by {}
    }
}

/// Every entry strictly between entry `k`'s parent and entry `k` (positions
/// in `e` start at `base`) lies at least as deep as entry `k`: it belongs to
/// an earlier sibling's subtree.
pub open spec fn nested_at(e: Seq<Entry>, base: nat, k: int) -> bool {
    forall|j: int| e[k].parent - base < j < k ==> #[trigger] e[j].level >= e[k].level
}

/// In a flattened document, the entries between an entry's parent and the
/// entry all lie at least as deep as the entry.
pub proof fn lemma_flatten_nested(t: JsonTree, index: JsonIndex, level: usize, parent: usize, base: nat)
    requires
        level + value_count(t) <= usize::MAX,
        base + value_count(t) <= usize::MAX,
    ensures
        forall|k: int|
            0 < k < flatten(t, index, level, parent, base).len() ==> #[trigger] nested_at(
                flatten(t, index, level, parent, base),
                base,
                k,
            ),
    decreases t,
{
    let e = flatten(t, index, level, parent, base);
    match t {
        JsonTree::Leaf(_) => {},
        JsonTree::Array(items) => {
            let fi = flatten_items(items@, (level + 1) as usize, base as usize, base + 1);
            lemma_flatten_items_shape(items@, (level + 1) as usize, base as usize, base + 1);
            lemma_flatten_items_nested(items@, (level + 1) as usize, base as usize, base + 1);
            assert forall|k: int| 0 < k < e.len() implies #[trigger] nested_at(e, base, k) by {
                assert(e[k] == fi[k - 1]);
                assert forall|j: int| e[k].parent - base < j < k implies #[trigger] e[j].level >= e[k].level by {
                    assert(e[j] == fi[j - 1]);
                    if fi[k - 1].parent != base as usize {
                        assert(hangs_below_earlier(fi, base + 1, k - 1));
                        assert(nested_at(fi, base + 1, k - 1));
                        assert(fi[j - 1].level >= fi[k - 1].level);
                    }
                }
            }
        },
        JsonTree::Object(members) => {
            let fm = flatten_members(members@, (level + 1) as usize, base as usize, base + 1);
            lemma_flatten_members_shape(members@, (level + 1) as usize, base as usize, base + 1);
            lemma_flatten_members_nested(members@, (level + 1) as usize, base as usize, base + 1);
            assert forall|k: int| 0 < k < e.len() implies #[trigger] nested_at(e, base, k) by {
                assert(e[k] == fm[k - 1]);
                assert forall|j: int| e[k].parent - base < j < k implies #[trigger] e[j].level >= e[k].level by {
                    assert(e[j] == fm[j - 1]);
                    if fm[k - 1].parent != base as usize {
                        assert(hangs_below_earlier(fm, base + 1, k - 1));
                        assert(nested_at(fm, base + 1, k - 1));
                        assert(fm[j - 1].level >= fm[k - 1].level);
                    }
                }
            }
        },
    }
}

proof fn lemma_flatten_items_nested(s: Seq<JsonTree>, level: usize, parent: usize, base: nat)
    requires
        level + items_count(s) <= usize::MAX,
        base + items_count(s) <= usize::MAX,
    ensures
        forall|k: int|
            0 <= k < flatten_items(s, level, parent, base).len() && (#[trigger] flatten_items(
                s,
                level,
                parent,
                base,
            )[k]).parent != parent ==> nested_at(flatten_items(s, level, parent, base), base, k),
    decreases s,
{
    if s.len() > 0 {
        let e = flatten_items(s, level, parent, base);
        let p = flatten_items(s.drop_last(), level, parent, base);
        let b2 = base + p.len();
        let f = flatten(s.last(), JsonIndex::Index((s.len() - 1) as usize), level, parent, b2);
        assert(e == p + f);
        lemma_flatten_items_len(s.drop_last(), level, parent, base);
        lemma_flatten_items_nested(s.drop_last(), level, parent, base);
        lemma_flatten_items_shape(s.drop_last(), level, parent, base);
        lemma_flatten_shape(s.last(), JsonIndex::Index((s.len() - 1) as usize), level, parent, b2);
        lemma_flatten_nested(s.last(), JsonIndex::Index((s.len() - 1) as usize), level, parent, b2);
        assert forall|k: int| 0 <= k < e.len() && (#[trigger] e[k]).parent != parent implies nested_at(e, base, k) by {
            if k < p.len() {
                assert(e[k] == p[k]);
                assert(nested_at(p, base, k));
                assert forall|j: int| e[k].parent - base < j < k implies #[trigger] e[j].level >= e[k].level by {
                    assert(e[j] == p[j]);
                }
            } else {
                let i = k - p.len();
                assert(e[k] == f[i]);
                assert(i > 0);
                assert(hangs_below_earlier(f, b2, i));
                assert(nested_at(f, b2, i));
                assert forall|j: int| e[k].parent - base < j < k implies #[trigger] e[j].level >= e[k].level by {
                    assert(e[j] == f[j - p.len()]);
                }
            }
        }
    }
}

proof fn lemma_flatten_members_nested(s: Seq<(String, JsonTree)>, level: usize, parent: usize, base: nat)
    requires
        level + members_count(s) <= usize::MAX,
        base + members_count(s) <= usize::MAX,
    ensures
        forall|k: int|
            0 <= k < flatten_members(s, level, parent, base).len() && (#[trigger] flatten_members(
                s,
                level,
                parent,
                base,
            )[k]).parent != parent ==> nested_at(flatten_members(s, level, parent, base), base, k),
    decreases s,
{
    if s.len() > 0 {
        let e = flatten_members(s, level, parent, base);
        let p = flatten_members(s.drop_last(), level, parent, base);
        let b2 = base + p.len();
        let f = flatten(s.last().1, JsonIndex::Key(s.last().0), level, parent, b2);
        assert(e == p + f);
        lemma_flatten_members_len(s.drop_last(), level, parent, base);
        lemma_flatten_members_nested(s.drop_last(), level, parent, base);
        lemma_flatten_members_shape(s.drop_last(), level, parent, base);
        lemma_flatten_shape(s.last().1, JsonIndex::Key(s.last().0), level, parent, b2);
        lemma_flatten_nested(s.last().1, JsonIndex::Key(s.last().0), level, parent, b2);
        assert forall|k: int| 0 <= k < e.len() && (#[trigger] e[k]).parent != parent implies nested_at(e, base, k) by {
            if k < p.len() {
                assert(e[k] == p[k]);
                assert(nested_at(p, base, k));
                assert forall|j: int| e[k].parent - base < j < k implies #[trigger] e[j].level >= e[k].level by {
                    assert(e[j] == p[j]);
                }
            } else {
                let i = k - p.len();
                assert(e[k] == f[i]);
                assert(i > 0);
                assert(hangs_below_earlier(f, b2, i));
                assert(nested_at(f, b2, i));
                assert forall|j: int| e[k].parent - base < j < k implies #[trigger] e[j].level >= e[k].level by {
                    assert(e[j] == f[j - p.len()]);
                }
            }
        }
    }
}

/// The number of entries of `e` whose parent is at position `p`.
pub open spec fn count_children(e: Seq<Entry>, p: int) -> nat
    decreases e.len(),
{
    if e.len() == 0 {
        0
    } else {
        count_children(e.drop_last(), p) + if e.last().parent == p {
            1nat
        } else {
            0nat
        }
    }
}

proof fn lemma_count_concat(a: Seq<Entry>, b: Seq<Entry>, p: int)
    ensures
        count_children(a + b, p) == count_children(a, p) + count_children(b, p),
    decreases b.len(),
{
    if b.len() > 0 {
        assert((a + b).drop_last() =~= a + b.drop_last());
        lemma_count_concat(a, b.drop_last(), p);
    } else {
        assert(a + b =~= a);
    }
}

proof fn lemma_count_none(e: Seq<Entry>, p: int)
    requires
        forall|k: int| 0 <= k < e.len() ==> (#[trigger] e[k]).parent != p,
    ensures
        count_children(e, p) == 0,
    decreases e.len(),
{
    if e.len() > 0 {
        lemma_count_none(e.drop_last(), p);
    }
}

proof fn lemma_count_split_first(f: Seq<Entry>, p: int)
    requires
        f.len() >= 1,
    ensures
        count_children(f, p) == count_children(f.drop_first(), p) + if f[0].parent == p {
            1nat
        } else {
            0nat
        },
{
    assert(f =~= seq![f[0]] + f.drop_first());
    lemma_count_concat(seq![f[0]], f.drop_first(), p);
    assert(seq![f[0]].drop_last() =~= Seq::<Entry>::empty());
    assert(count_children(Seq::<Entry>::empty(), p) == 0);
}

/// In a flattened document, each array or object records as its size the
/// number of entries after the first whose parent it is.
pub proof fn lemma_flatten_sizes(t: JsonTree, index: JsonIndex, level: usize, parent: usize, base: nat)
    requires
        level + value_count(t) <= usize::MAX,
        base + value_count(t) <= usize::MAX,
    ensures
        ({
            let f = flatten(t, index, level, parent, base);
            forall|q: int|
                0 <= q < f.len() ==> match (#[trigger] f[q]).value {
                    JsonValue::Array(l) => count_children(f.drop_first(), base + q) == l.size,
                    JsonValue::Object(l) => count_children(f.drop_first(), base + q) == l.size,
                    JsonValue::Value(_) => true,
                }
        }),
    decreases t,
{
    let f = flatten(t, index, level, parent, base);
    match t {
        JsonTree::Leaf(_) => {},
        JsonTree::Array(items) => {
            let fi = flatten_items(items@, (level + 1) as usize, base as usize, base + 1);
            assert(f.drop_first() =~= fi);
            lemma_flatten_items_sizes(items@, (level + 1) as usize, base as usize, base + 1);
            assert forall|q: int| 0 < q < f.len() implies match (#[trigger] f[q]).value {
                JsonValue::Array(l) => count_children(f.drop_first(), base + q) == l.size,
                JsonValue::Object(l) => count_children(f.drop_first(), base + q) == l.size,
                JsonValue::Value(_) => true,
            } by {
                assert(f[q] == fi[q - 1]);
            }
        },
        JsonTree::Object(members) => {
            let fm = flatten_members(members@, (level + 1) as usize, base as usize, base + 1);
            assert(f.drop_first() =~= fm);
            lemma_flatten_members_sizes(members@, (level + 1) as usize, base as usize, base + 1);
            assert forall|q: int| 0 < q < f.len() implies match (#[trigger] f[q]).value {
                JsonValue::Array(l) => count_children(f.drop_first(), base + q) == l.size,
                JsonValue::Object(l) => count_children(f.drop_first(), base + q) == l.size,
                JsonValue::Value(_) => true,
            } by {
                assert(f[q] == fm[q - 1]);
            }
        },
    }
}

/// The entries of a flattened document other than its first all have their
/// parents among the document's positions, and before themselves.
proof fn lemma_flatten_parents(t: JsonTree, index: JsonIndex, level: usize, parent: usize, base: nat)
    requires
        level + value_count(t) <= usize::MAX,
        base + value_count(t) <= usize::MAX,
    ensures
        forall|k: int|
            0 < k < flatten(t, index, level, parent, base).len() ==> base <= (#[trigger] flatten(
                t,
                index,
                level,
                parent,
                base,
            )[k]).parent < base + k,
{
    lemma_flatten_shape(t, index, level, parent, base);
    let f = flatten(t, index, level, parent, base);
    assert forall|k: int| 0 < k < f.len() implies base <= (#[trigger] f[k]).parent < base + k by {
        assert(hangs_below_earlier(f, base, k));
    }
}

proof fn lemma_flatten_items_sizes(s: Seq<JsonTree>, level: usize, parent: usize, base: nat)
    requires
        level + items_count(s) <= usize::MAX,
        base + items_count(s) <= usize::MAX,
        parent < base,
    ensures
        ({
            let e = flatten_items(s, level, parent, base);
            &&& count_children(e, parent as int) == s.len()
            &&& forall|k: int| 0 <= k < e.len() ==> (#[trigger] e[k]).parent == parent || base <= e[k].parent < base + k
            &&& forall|q: int|
                0 <= q < e.len() ==> match (#[trigger] e[q]).value {
                    JsonValue::Array(l) => count_children(e, base + q) == l.size,
                    JsonValue::Object(l) => count_children(e, base + q) == l.size,
                    JsonValue::Value(_) => true,
                }
        }),
    decreases s,
{
    if s.len() > 0 {
        let e = flatten_items(s, level, parent, base);
        let p = flatten_items(s.drop_last(), level, parent, base);
        let b2 = base + p.len();
        let f = flatten(s.last(), JsonIndex::Index((s.len() - 1) as usize), level, parent, b2);
        assert(e == p + f);
        lemma_flatten_items_len(s.drop_last(), level, parent, base);
        lemma_flatten_items_sizes(s.drop_last(), level, parent, base);
        lemma_flatten_shape(s.last(), JsonIndex::Index((s.len() - 1) as usize), level, parent, b2);
        lemma_flatten_parents(s.last(), JsonIndex::Index((s.len() - 1) as usize), level, parent, b2);
        lemma_flatten_sizes(s.last(), JsonIndex::Index((s.len() - 1) as usize), level, parent, b2);
        lemma_flatten_len(s.last(), JsonIndex::Index((s.len() - 1) as usize), level, parent, b2);
        assert forall|k: int| 0 <= k < e.len() implies (#[trigger] e[k]).parent == parent || base <= e[k].parent < base + k by {
            if k < p.len() {
                assert(e[k] == p[k]);
            } else {
                assert(e[k] == f[k - p.len()]);
            }
        }
        lemma_count_concat(p, f, parent as int);
        lemma_count_split_first(f, parent as int);
        assert forall|k: int| 0 <= k < f.drop_first().len() implies (#[trigger] f.drop_first()[k]).parent != parent by {
            assert(f.drop_first()[k] == f[k + 1]);
        }
        lemma_count_none(f.drop_first(), parent as int);
        assert forall|q: int| 0 <= q < e.len() implies match (#[trigger] e[q]).value {
            JsonValue::Array(l) => count_children(e, base + q) == l.size,
            JsonValue::Object(l) => count_children(e, base + q) == l.size,
            JsonValue::Value(_) => true,
        } by {
            lemma_count_concat(p, f, base + q);
            if q < p.len() {
                assert(e[q] == p[q]);
                assert forall|k: int| 0 <= k < f.len() implies (#[trigger] f[k]).parent != base + q by {
                }
                lemma_count_none(f, base + q);
            } else {
                let j = q - p.len();
                assert(e[q] == f[j]);
                assert forall|k: int| 0 <= k < p.len() implies (#[trigger] p[k]).parent != base + q by {
                }
                lemma_count_none(p, base + q);
                lemma_count_split_first(f, base + q);
            }
        }
    }
}

proof fn lemma_flatten_members_sizes(s: Seq<(String, JsonTree)>, level: usize, parent: usize, base: nat)
    requires
        level + members_count(s) <= usize::MAX,
        base + members_count(s) <= usize::MAX,
        parent < base,
    ensures
        ({
            let e = flatten_members(s, level, parent, base);
            &&& count_children(e, parent as int) == s.len()
            &&& forall|k: int| 0 <= k < e.len() ==> (#[trigger] e[k]).parent == parent || base <= e[k].parent < base + k
            &&& forall|q: int|
                0 <= q < e.len() ==> match (#[trigger] e[q]).value {
                    JsonValue::Array(l) => count_children(e, base + q) == l.size,
                    JsonValue::Object(l) => count_children(e, base + q) == l.size,
                    JsonValue::Value(_) => true,
                }
        }),
    decreases s,
{
    if s.len() > 0 {
        let e = flatten_members(s, level, parent, base);
        let p = flatten_members(s.drop_last(), level, parent, base);
        let b2 = base + p.len();
        let f = flatten(s.last().1, JsonIndex::Key(s.last().0), level, parent, b2);
        assert(e == p + f);
        lemma_flatten_members_len(s.drop_last(), level, parent, base);
        lemma_flatten_members_sizes(s.drop_last(), level, parent, base);
        lemma_flatten_shape(s.last().1, JsonIndex::Key(s.last().0), level, parent, b2);
        lemma_flatten_parents(s.last().1, JsonIndex::Key(s.last().0), level, parent, b2);
        lemma_flatten_sizes(s.last().1, JsonIndex::Key(s.last().0), level, parent, b2);
        lemma_flatten_len(s.last().1, JsonIndex::Key(s.last().0), level, parent, b2);
        assert forall|k: int| 0 <= k < e.len() implies (#[trigger] e[k]).parent == parent || base <= e[k].parent < base + k by {
            if k < p.len() {
                assert(e[k] == p[k]);
            } else {
                assert(e[k] == f[k - p.len()]);
            }
        }
        lemma_count_concat(p, f, parent as int);
        lemma_count_split_first(f, parent as int);
        assert forall|k: int| 0 <= k < f.drop_first().len() implies (#[trigger] f.drop_first()[k]).parent != parent by {
            assert(f.drop_first()[k] == f[k + 1]);
        }
        lemma_count_none(f.drop_first(), parent as int);
        assert forall|q: int| 0 <= q < e.len() implies match (#[trigger] e[q]).value {
            JsonValue::Array(l) => count_children(e, base + q) == l.size,
            JsonValue::Object(l) => count_children(e, base + q) == l.size,
            JsonValue::Value(_) => true,
        } by {
            lemma_count_concat(p, f, base + q);
            if q < p.len() {
                assert(e[q] == p[q]);
                assert forall|k: int| 0 <= k < f.len() implies (#[trigger] f[k]).parent != base + q by {
                }
                lemma_count_none(f, base + q);
            } else {
                let j = q - p.len();
                assert(e[q] == f[j]);
                assert forall|k: int| 0 <= k < p.len() implies (#[trigger] p[k]).parent != base + q by {
                }
                lemma_count_none(p, base + q);
                lemma_count_split_first(f, base + q);
            }
        }
    }
}

impl JsonEnviroment {
    /// Appends the entries of `json_value` to `vec`, its own entry first.
    fn populate_recursive(
        vec: &mut Vec<Entry>,
        json_value: JsonTree,
        index: JsonIndex,
        level: usize,
        parent: usize,
    )
        requires
            old(vec).len() + value_count(json_value) <= usize::MAX,
            level + value_count(json_value) <= usize::MAX,
        ensures
            final(vec)@ == old(vec)@ + flatten(json_value, index, level, parent, old(vec).len() as nat),
            final(vec)@.len() == old(vec)@.len() + value_count(json_value),
            final(vec)@.subrange(0, old(vec)@.len() as int) == old(vec)@,
        decreases json_value,
    {
        let id = vec.len();
        proof {
            lemma_flatten_len(json_value, index, level, parent, id as nat);
        }
        let ghost start = vec@;
        let ghost whole = json_value;
        match json_value {
            JsonTree::Array(v) => {
                let ghost items = v@;
                let ghost head = Entry {
                    parent,
                    index,
                    value: JsonValue::Array(List { size: v.len(), is_folded: true }),
                    level,
                };
                vec.push(Entry { index, value: JsonValue::Array(List::new(v.len())), parent, level });
                let n = v.len();
                let mut i: usize = 0;
                for value in it: v.into_iter()
                    invariant
                        it.seq() == items,
                        items.len() == n,
                        whole == json_value,
                        i == it.index(),
                        whole == JsonTree::Array(v),
                        items == v@,
                        id == start.len(),
                        id + 1 + items_count(items) <= usize::MAX,
                        level + 1 + items_count(items) <= usize::MAX,
                        vec@ == start + seq![head] + flatten_items(
                            items.take(i as int),
                            (level + 1) as usize,
                            id,
                            (id + 1) as nat,
                        ),
                {
                    proof {
                        assert(i < items.len());
                        assert(decreases_to!(whole => whole->Array_0));
                        assert(decreases_to!(whole->Array_0 => whole->Array_0@));
                        assert(decreases_to!(whole->Array_0@ => whole->Array_0@[i as int]));
                        lemma_items_count_prefix(items, i as int + 1);
                        assert(items.take(i as int + 1).drop_last() =~= items.take(i as int));
                        lemma_flatten_items_len(items.take(i as int), (level + 1) as usize, id, (id + 1) as nat);
                    }
                    JsonEnviroment::populate_recursive(vec, value, JsonIndex::Index(i), level + 1, id);
                    i = i + 1;
                }
                assert(items.take(items.len() as int) =~= items);
            },
            JsonTree::Object(v) => {
                let ghost members = v@;
                let ghost head = Entry {
                    parent,
                    index,
                    value: JsonValue::Object(List { size: v.len(), is_folded: true }),
                    level,
                };
                vec.push(Entry { index, value: JsonValue::Object(List::new(v.len())), parent, level });
                for member in it: v.into_iter()
                    invariant
                        it.seq() == members,
                        whole == json_value,
                        whole == JsonTree::Object(v),
                        members == v@,
                        id == start.len(),
                        id + 1 + members_count(members) <= usize::MAX,
                        level + 1 + members_count(members) <= usize::MAX,
                        vec@ == start + seq![head] + flatten_members(
                            members.take(it.index()),
                            (level + 1) as usize,
                            id,
                            (id + 1) as nat,
                        ),
                {
                    let ghost k = it.index();
                    proof {
                        assert(k < members.len());
                        assert(decreases_to!(whole => whole->Object_0));
                        assert(decreases_to!(whole->Object_0 => whole->Object_0@));
                        assert(decreases_to!(whole->Object_0@ => whole->Object_0@[k]));
                        assert(decreases_to!(whole->Object_0@[k] => whole->Object_0@[k].1));
                        lemma_members_count_prefix(members, k + 1);
                        assert(members.take(k + 1).drop_last() =~= members.take(k));
                        lemma_flatten_members_len(members.take(k), (level + 1) as usize, id, (id + 1) as nat);
                    }
                    let (key, value) = member;
                    JsonEnviroment::populate_recursive(vec, value, JsonIndex::Key(key), level + 1, id);
                }
                assert(members.take(members.len() as int) =~= members);
            },
            JsonTree::Leaf(leaf) => {
                vec.push(Entry { index, value: JsonValue::Value(leaf), parent, level });
            },
        }
    }
}


/// Whether a filter with `pattern` selects a scalar: strings and numbers by
/// their text, booleans by `true` or `false`; `null` is never selected.
pub open spec fn leaf_matches(leaf: JsonLeaf, pattern: Seq<char>) -> bool {
    match leaf {
        JsonLeaf::String(s) => pattern_matches(pattern, s@),
        JsonLeaf::Number(n) => pattern_matches(pattern, n@),
        JsonLeaf::Bool(b) => pattern_matches(pattern, if b { "true"@ } else { "false"@ }),
        JsonLeaf::Null => false,
    }
}

/// Whether a filter with `pattern` selects an entry: by its key, or by its scalar value.
pub open spec fn entry_matches(e: Entry, pattern: Seq<char>) -> bool {
    ||| e.index matches JsonIndex::Key(k) && pattern_matches(pattern, k@)
    ||| e.value matches JsonValue::Value(leaf) && leaf_matches(leaf, pattern)
}

/// The positions of the entries that a filter with `pattern` selects, in increasing order.
pub open spec fn matching_ids(entries: Seq<Entry>, pattern: Seq<char>) -> Seq<EntryId>
    decreases entries.len(),
{
    if entries.len() == 0 {
        seq![]
    } else {
        matching_ids(entries.drop_last(), pattern) + if entry_matches(entries.last(), pattern) {
            seq![EntryId((entries.len() - 1) as usize)]
        } else {
            seq![]
        }
    }
}

/// The depth up to which scalars are shown after the first `n` entries have
/// been rendered: it starts at 1, and each container sets it to its own
/// depth when folded and to one more when unfolded.
pub open spec fn fold_level(entries: Seq<Entry>, n: nat) -> int
    decreases n,
{
    if n == 0 {
        1
    } else {
        let level = entries[n - 1].level as int;
        match entries[n - 1].value {
            JsonValue::Value(_) => fold_level(entries, (n - 1) as nat),
            JsonValue::Array(list) => if list.is_folded {
                level
            } else {
                level + 1
            },
            JsonValue::Object(list) => if list.is_folded {
                level
            } else {
                level + 1
            },
        }
    }
}

/// Whether entry `k` is rendered: containers always are, scalars when they
/// lie no deeper than the current fold level.
pub open spec fn is_shown(entries: Seq<Entry>, k: nat) -> bool {
    match entries[k as int].value {
        JsonValue::Value(_) => entries[k as int].level <= fold_level(entries, k),
        _ => true,
    }
}

/// The positions of the rendered entries among the first `n`.
pub open spec fn shown_ids(entries: Seq<Entry>, n: nat) -> Seq<usize>
    decreases n,
{
    if n == 0 {
        seq![]
    } else {
        shown_ids(entries, (n - 1) as nat) + if is_shown(entries, (n - 1) as nat) {
            seq![(n - 1) as usize]
        } else {
            seq![]
        }
    }
}

/// How many filter positions have been marked after the first `n` entries:
/// the filter list is walked in step with the rendered rows, and a row is
/// marked when it is the next position of the list.
pub open spec fn filter_cursor(entries: Seq<Entry>, filter: Seq<EntryId>, n: nat) -> nat
    decreases n,
{
    if n == 0 {
        0
    } else {
        let c = filter_cursor(entries, filter, (n - 1) as nat);
        if is_shown(entries, (n - 1) as nat) && c < filter.len() && filter[c as int].0 == n - 1 {
            c + 1
        } else {
            c
        }
    }
}

/// Whether the rendered row of entry `k` is marked as selected by the filter.
pub open spec fn is_marked(entries: Seq<Entry>, filter: Seq<EntryId>, k: nat) -> bool {
    let c = filter_cursor(entries, filter, k);
    c < filter.len() && filter[c as int].0 == k
}

/// The marks of the rendered rows among the first `n` entries.
pub open spec fn shown_marks(entries: Seq<Entry>, filter: Seq<EntryId>, n: nat) -> Seq<bool>
    decreases n,
{
    if n == 0 {
        seq![]
    } else {
        shown_marks(entries, filter, (n - 1) as nat) + if is_shown(entries, (n - 1) as nat) {
            seq![is_marked(entries, filter, (n - 1) as nat)]
        } else {
            seq![]
        }
    }
}

/// What an edit of entry `id`'s value with the document `parsed` returns,
/// and the entries it leaves.
pub open spec fn value_edit(entries: Seq<Entry>, id: usize, parsed: Option<JsonTree>) -> (
    Result<(), SetErrors>,
    Seq<Entry>,
) {
    match parsed {
        Some(JsonTree::Leaf(leaf)) => if id < entries.len() {
            (Ok(()), entries.update(id as int, entries[id as int].with_value(JsonValue::Value(leaf))))
        } else {
            (Err(SetErrors::InvalidIndex), entries)
        },
        _ => (Err(SetErrors::InvalidJson), entries),
    }
}

/// What an edit of entry `id`'s key with the document `parsed` returns, and
/// the entries it leaves.
pub open spec fn key_edit(entries: Seq<Entry>, id: usize, parsed: Option<JsonTree>) -> (
    Result<(), SetErrors>,
    Seq<Entry>,
) {
    match parsed {
        None => (Err(SetErrors::InvalidJson), entries),
        Some(JsonTree::Leaf(JsonLeaf::String(key))) => if id < entries.len() {
            (Ok(()), entries.update(id as int, entries[id as int].with_index(JsonIndex::Key(key))))
        } else {
            (Err(SetErrors::InvalidIndex), entries)
        },
        _ => (Err(SetErrors::InvalidKey), entries),
    }
}

/// `after` has the entries of `before`, each with the same parent and depth.
pub open spec fn keeps_shape(before: Seq<Entry>, after: Seq<Entry>) -> bool {
    &&& after.len() == before.len()
    &&& forall|i: int|
        0 <= i < before.len() ==> (#[trigger] after[i]).parent == before[i].parent && after[i].level
            == before[i].level
}

/// Whether an entry is an unfolded array or object.
pub open spec fn is_unfolded(e: Entry) -> bool {
    match e.value {
        JsonValue::Array(l) => !l.is_folded,
        JsonValue::Object(l) => !l.is_folded,
        JsonValue::Value(_) => false,
    }
}

/// No unfolded array or object lies at the greatest depth a `usize` can
/// hold (rendering shows the elements of such a container one level deeper).
pub open spec fn levels_in_range(entries: Seq<Entry>) -> bool {
    forall|i: int| 0 <= i < entries.len() && is_unfolded(#[trigger] entries[i]) ==> entries[i].level < usize::MAX
}

impl JsonEnviroment {
    /// Flattens a document read from `path`, with an empty filter selection.
    pub fn from_json(json: JsonTree, path: String) -> (env: JsonEnviroment)
        requires
            value_count(json) + 100 <= usize::MAX,
        ensures
            env.entries@ == flatten(json, JsonIndex::Root, 0, 0, 0),
            env.filtered_indicies@ == Seq::<EntryId>::empty(),
            env.path == path,
    {
        let mut ret = Vec::with_capacity(get_value_count(&json) + 100);
        JsonEnviroment::populate_recursive(&mut ret, json, JsonIndex::Root, 0, 0);
        JsonEnviroment { path, entries: ret, filtered_indicies: Vec::new() }
    }

    /// The path of the file the document was read from.
    pub fn path(&self) -> (p: &str)
        ensures
            p@ == self.path@,
    {
        self.path.as_str()
    }

    /// Selects the entries whose key, or whose scalar value, the filter matches.
    pub fn set_filter(&mut self, filter: &TextFilter)
        ensures
            final(self).entries@ == old(self).entries@,
            final(self).path == old(self).path,
            final(self).filtered_indicies@ == matching_ids(old(self).entries@, filter.pattern()),
    {
        let mut selected: Vec<EntryId> = Vec::new();
        let n = self.entries.len();
        for i in 0..n
            invariant
                n == self.entries.len(),
                selected@ == matching_ids(self.entries@.take(i as int), filter.pattern()),
        {
            let entry = &self.entries[i];
            let mut matches = false;
            if let JsonIndex::Key(key) = &entry.index {
                matches = filter.is_match(key.as_str());
            }
            if !matches {
                if let JsonValue::Value(value) = &entry.value {
                    matches = match value {
                        JsonLeaf::String(s) => filter.is_match(s.as_str()),
                        JsonLeaf::Number(n) => filter.is_match(n.as_str()),
                        JsonLeaf::Bool(b) => filter.is_match(if *b { "true" } else { "false" }),
                        JsonLeaf::Null => false,
                    };
                }
            }
            proof {
                assert(self.entries@.take(i + 1).drop_last() =~= self.entries@.take(i as int));
            }
            if matches {
                selected.push(EntryId(i));
            }
        }
        proof {
            assert(self.entries@.take(n as int) =~= self.entries@);
        }
        self.filtered_indicies = selected;
    }

    /// Replaces the scalar held by entry `id` with `parsed`, the document
    /// read from the text of an edit. Refused when the text was not a JSON
    /// scalar, or when there is no entry `id`.
    pub fn apply_value(&mut self, id: usize, parsed: Option<JsonTree>) -> (r: Result<(), SetErrors>)
        ensures
            (r, final(self).entries@) == value_edit(old(self).entries@, id, parsed),
            final(self).path == old(self).path,
            final(self).filtered_indicies@ == old(self).filtered_indicies@,
            keeps_shape(old(self).entries@, final(self).entries@),
    {
        let v = match parsed {
            Some(JsonTree::Leaf(leaf)) => JsonValue::Value(leaf),
            _ => {
                return Err(SetErrors::InvalidJson);
            },
        };
        if id >= self.entries.len() {
            return Err(SetErrors::InvalidIndex);
        }
        self.entries[id].value = v;
        Ok(())
    }

    /// Replaces the scalar held by entry `id` with the JSON scalar that the
    /// text `str` holds once trimmed.
    pub fn set_value(&mut self, id: usize, str: &str) -> (r: Result<(), SetErrors>)
        ensures
            (r, final(self).entries@) == value_edit(old(self).entries@, id, json_document(trimmed(str@))),
            final(self).path == old(self).path,
            final(self).filtered_indicies@ == old(self).filtered_indicies@,
            keeps_shape(old(self).entries@, final(self).entries@),
    {
        self.apply_value(id, validate_json_value(str))
    }

    /// Makes entry `id` an object member with the key `parsed`, the document
    /// read from the text of an edit. Refused when the text was not JSON,
    /// when it was not a string, or when there is no entry `id`.
    pub fn apply_key(&mut self, id: usize, parsed: Option<JsonTree>) -> (r: Result<(), SetErrors>)
        ensures
            (r, final(self).entries@) == key_edit(old(self).entries@, id, parsed),
            final(self).path == old(self).path,
            final(self).filtered_indicies@ == old(self).filtered_indicies@,
            keeps_shape(old(self).entries@, final(self).entries@),
    {
        let v = match parsed {
            None => {
                return Err(SetErrors::InvalidJson);
            },
            Some(JsonTree::Leaf(JsonLeaf::String(s))) => s,
            _ => {
                return Err(SetErrors::InvalidKey);
            },
        };
        if id >= self.entries.len() {
            return Err(SetErrors::InvalidIndex);
        }
        self.entries[id].index = JsonIndex::Key(v);
        Ok(())
    }

    /// Makes entry `id` an object member with the key that the JSON text
    /// `str` holds once trimmed.
    pub fn set_key(&mut self, id: usize, str: &str) -> (r: Result<(), SetErrors>)
        ensures
            (r, final(self).entries@) == key_edit(old(self).entries@, id, json_document(trimmed(str@))),
            final(self).path == old(self).path,
            final(self).filtered_indicies@ == old(self).filtered_indicies@,
            keeps_shape(old(self).entries@, final(self).entries@),
    {
        self.apply_key(id, validate_json_value(str))
    }

    /// Whether no unfolded array or object lies at the greatest depth a
    /// `usize` can hold, which rendering requires.
    pub fn depths_in_range(&self) -> (ok: bool)
        ensures
            ok == levels_in_range(self.entries@),
    {
        let n = self.entries.len();
        for i in 0..n
            invariant
                n == self.entries.len(),
                forall|k: int|
                    0 <= k < i && is_unfolded(#[trigger] self.entries@[k]) ==> self.entries@[k].level
                        < usize::MAX,
        {
            let unfolded = match &self.entries[i].value {
                JsonValue::Array(l) => !l.is_folded,
                JsonValue::Object(l) => !l.is_folded,
                JsonValue::Value(_) => false,
            };
            if unfolded && self.entries[i].level == usize::MAX {
                return false;
            }
        }
        true
    }

    /// The rows to show: every container, and the scalars that no folded
    /// container hides, in document order; the rows of the filter's
    /// selection are marked, walking the selection in step with the rows.
    pub fn to_ui(&self) -> (rows: Vec<RenderedValue>)
        requires
            levels_in_range(self.entries@),
        ensures
            rows.len() == shown_ids(self.entries@, self.entries@.len()).len(),
            forall|k: int|
                0 <= k < rows.len() ==> renders(
                    #[trigger] rows@[k],
                    self.entries@[shown_ids(self.entries@, self.entries@.len())[k] as int],
                    shown_ids(self.entries@, self.entries@.len())[k],
                    shown_marks(self.entries@, self.filtered_indicies@, self.entries@.len())[k],
                ),
    {
        let ghost entries = self.entries@;
        let ghost filter = self.filtered_indicies@;
        let n = self.entries.len();
        let mut level: usize = 1;
        let mut cursor: usize = 0;
        let mut rows: Vec<RenderedValue> = Vec::new();
        for i in 0..n
            invariant
                n == entries.len(),
                entries == self.entries@,
                filter == self.filtered_indicies@,
                levels_in_range(entries),
                level == fold_level(entries, i as nat),
                cursor == filter_cursor(entries, filter, i as nat),
                cursor <= filter.len(),
                rows.len() == shown_ids(entries, i as nat).len(),
                shown_marks(entries, filter, i as nat).len() == rows.len(),
                forall|k: int|
                    0 <= k < rows.len() ==> renders(
                        #[trigger] rows@[k],
                        entries[shown_ids(entries, i as nat)[k] as int],
                        shown_ids(entries, i as nat)[k],
                        shown_marks(entries, filter, i as nat)[k],
                    ),
        {
            let entry = &self.entries[i];
            proof {
                assert(is_unfolded(entries[i as int]) ==> entries[i as int].level < usize::MAX);
            }
            let shown = match &entry.value {
                JsonValue::Value(_) => entry.level <= level,
                JsonValue::Object(list) => {
                    level = if list.is_folded { entry.level } else { entry.level + 1 };
                    true
                },
                JsonValue::Array(list) => {
                    level = if list.is_folded { entry.level } else { entry.level + 1 };
                    true
                },
            };
            if shown {
                let mut row = entry.to_ui(i);
                if cursor < self.filtered_indicies.len() && self.filtered_indicies[cursor].0 == i {
                    row.in_filter = true;
                    cursor = cursor + 1;
                }
                rows.push(row);
            }
        }
        rows
    }
}


/// Law: reading a document gives its tree. There is one entry per value;
/// the first entry is the root (its own parent, reached by no index, at
/// depth 0) and no other entry is reached by no index; every other entry
/// comes after its parent, which is an array or object one level up and
/// reaches it by position if it is an array and by key if it is an object;
/// every array and object starts folded; and no depth reaches the greatest
/// `usize`, so the entries can be rendered.
pub proof fn lemma_from_json_tree(json: JsonTree)
    requires
        value_count(json) + 100 <= usize::MAX,
    ensures
        ({
            let e = flatten(json, JsonIndex::Root, 0, 0, 0);
            &&& e.len() == value_count(json)
            &&& e[0].parent == 0
            &&& e[0].index == JsonIndex::Root
            &&& e[0].level == 0
            &&& forall|k: int| 0 < k < e.len() ==> #[trigger] hangs_below_earlier(e, 0, k)
            &&& forall|k: int| 0 < k < e.len() ==> !((#[trigger] e[k]).index is Root)
            &&& all_folded(e)
            &&& forall|k: int| 0 <= k < e.len() ==> #[trigger] e[k].level < usize::MAX
            &&& levels_in_range(e)
        }),
{
    let e = flatten(json, JsonIndex::Root, 0, 0, 0);
    lemma_flatten_len(json, JsonIndex::Root, 0, 0, 0);
    lemma_flatten_shape(json, JsonIndex::Root, 0, 0, 0);
    lemma_flatten_folded(json, JsonIndex::Root, 0, 0, 0);
    assert forall|i: int| 0 <= i < e.len() implies #[trigger] e[i].level < usize::MAX by {
        assert(e[i].level <= i);
    }
    assert forall|k: int| 0 < k < e.len() implies !((#[trigger] e[k]).index is Root) by {
        assert(hangs_below_earlier(e, 0, k));
    }
}

/// Law: in a document that was read, each array or object records as its
/// size the number of its elements: the entries after the first whose parent
/// it is.
pub proof fn lemma_from_json_sizes(json: JsonTree)
    requires
        value_count(json) + 100 <= usize::MAX,
    ensures
        ({
            let e = flatten(json, JsonIndex::Root, 0, 0, 0);
            forall|q: int|
                0 <= q < e.len() ==> match (#[trigger] e[q]).value {
                    JsonValue::Array(l) => count_children(e.drop_first(), q) == l.size,
                    JsonValue::Object(l) => count_children(e.drop_first(), q) == l.size,
                    JsonValue::Value(_) => true,
                }
        }),
{
    lemma_flatten_sizes(json, JsonIndex::Root, 0, 0, 0);
}

proof fn lemma_fold_level_folded(e: Seq<Entry>, n: nat)
    requires
        all_folded(e),
        n <= e.len(),
    ensures
        forall|c: int|
            0 <= c < n && is_container((#[trigger] e[c]).value) && (forall|m: int|
                c < m < n ==> !is_container(#[trigger] e[m].value)) ==> fold_level(e, n) == e[c].level,
        (forall|m: int| 0 <= m < n ==> !is_container(#[trigger] e[m].value)) ==> fold_level(e, n) == 1,
    decreases n,
{
    if n > 0 {
        lemma_fold_level_folded(e, (n - 1) as nat);
        let last = e[n - 1];
        assert(match last.value {
            JsonValue::Array(l) => l.is_folded,
            JsonValue::Object(l) => l.is_folded,
            JsonValue::Value(_) => true,
        });
        assert forall|c: int|
            0 <= c < n && is_container((#[trigger] e[c]).value) && (forall|m: int|
                c < m < n ==> !is_container(#[trigger] e[m].value)) implies fold_level(e, n) == e[c].level by {
            if c < n - 1 {
                assert(!is_container(e[n - 1].value));
                assert forall|m: int| c < m < n - 1 implies !is_container(#[trigger] e[m].value) by {}
            }
        }
        if forall|m: int| 0 <= m < n ==> !is_container(#[trigger] e[m].value) {
            assert(!is_container(e[n - 1].value));
            assert forall|m: int| 0 <= m < n - 1 implies !is_container(#[trigger] e[m].value) by {}
        }
    }
}

/// Among the positions `a..n`, when one holds a container, there is a last one.
proof fn lemma_last_container(e: Seq<Entry>, a: int, n: int)
    requires
        0 <= a <= n <= e.len(),
        exists|j: int| a <= j < n && is_container(#[trigger] e[j].value),
    ensures
        exists|c: int|
            a <= c < n && is_container((#[trigger] e[c]).value) && (forall|m: int|
                c < m < n ==> !is_container(#[trigger] e[m].value)),
    decreases n - a,
{
    if is_container(e[n - 1].value) {
        assert(forall|m: int| n - 1 < m < n ==> !is_container(#[trigger] e[m].value));
        assert(is_container(e[n - 1].value));
    } else {
        let j = choose|j: int| a <= j < n && is_container(#[trigger] e[j].value);
        assert(j < n - 1);
        lemma_last_container(e, a, n - 1);
        let c = choose|c: int|
            a <= c < n - 1 && is_container((#[trigger] e[c]).value) && (forall|m: int|
                c < m < n - 1 ==> !is_container(#[trigger] e[m].value));
        assert forall|m: int| c < m < n implies !is_container(#[trigger] e[m].value) by {}
    }
}

/// Law: a document that was just read (every array and object folded, an
/// empty selection) shows as rows every array and object, the root, and
/// exactly those other scalars that have an array or object between their
/// parent and themselves; no row is marked.
pub proof fn lemma_fresh_rows(json: JsonTree)
    requires
        value_count(json) + 100 <= usize::MAX,
    ensures
        ({
            let e = flatten(json, JsonIndex::Root, 0, 0, 0);
            &&& forall|i: nat|
                i < e.len() ==> (#[trigger] is_shown(e, i) <==> (i == 0 || is_container(e[i as int].value)
                    || exists|j: int| e[i as int].parent < j < i && is_container(#[trigger] e[j].value)))
            &&& forall|i: nat| i < e.len() ==> !#[trigger] is_marked(e, Seq::<EntryId>::empty(), i)
        }),
{
    let e = flatten(json, JsonIndex::Root, 0, 0, 0);
    lemma_flatten_folded(json, JsonIndex::Root, 0, 0, 0);
    lemma_flatten_shape(json, JsonIndex::Root, 0, 0, 0);
    lemma_flatten_nested(json, JsonIndex::Root, 0, 0, 0);
    assert forall|i: nat| i < e.len() implies (#[trigger] is_shown(e, i) <==> (i == 0 || is_container(
        e[i as int].value,
    ) || exists|j: int| e[i as int].parent < j < i && is_container(#[trigger] e[j].value))) by {
        lemma_shown_row(e, i);
    }
}

proof fn lemma_shown_row(e: Seq<Entry>, i: nat)
    requires
        i < e.len(),
        all_folded(e),
        e[0].level == 0,
        forall|k: int| 0 < k < e.len() ==> #[trigger] hangs_below_earlier(e, 0, k),
        forall|k: int| 0 < k < e.len() ==> #[trigger] nested_at(e, 0, k),
    ensures
        is_shown(e, i) <==> (i == 0 || is_container(e[i as int].value) || exists|j: int|
            e[i as int].parent < j < i && is_container(#[trigger] e[j].value)),
{
    lemma_fold_level_folded(e, i);
    if i > 0 && !is_container(e[i as int].value) {
        assert(hangs_below_earlier(e, 0, i as int));
        assert(nested_at(e, 0, i as int));
        let p = e[i as int].parent as int;
        if exists|j: int| p < j < i && is_container(#[trigger] e[j].value) {
            lemma_last_container(e, p + 1, i as int);
            let c = choose|c: int|
                p + 1 <= c < i && is_container((#[trigger] e[c]).value) && (forall|m: int|
                    c < m < i ==> !is_container(#[trigger] e[m].value));
            assert(e[c].level >= e[i as int].level);
        } else {
            assert forall|m: int| p < m < i implies !is_container(#[trigger] e[m].value) by {}
            assert(fold_level(e, i) == e[p].level);
        }
    } else if i == 0 && !is_container(e[0].value) {
        assert(fold_level(e, 0) == 1);
    }
}

/// The entries of `e` hold the document `t` with its own entry at position
/// `i`: a scalar is held by the entry itself; the elements of an array or
/// object come in order, the first right after the entry and each next one
/// after all the entries of the one before, each with the entry as parent
/// and reached by its position or key.
pub open spec fn encodes_at(e: Seq<Entry>, i: int, t: JsonTree) -> bool
    decreases t,
{
    match t {
        JsonTree::Leaf(leaf) => e[i].value == JsonValue::Value(leaf),
        JsonTree::Array(items) => e[i].value is Array && encodes_items(e, i, items@),
        JsonTree::Object(members) => e[i].value is Object && encodes_members(e, i, members@),
    }
}

/// The elements `s` of the array at position `i` are held in order after it.
pub open spec fn encodes_items(e: Seq<Entry>, i: int, s: Seq<JsonTree>) -> bool
    decreases s,
{
    if s.len() == 0 {
        true
    } else {
        let pos = i + 1 + items_count(s.drop_last());
        &&& encodes_items(e, i, s.drop_last())
        &&& e[pos].parent == i
        &&& e[pos].index == JsonIndex::Index((s.len() - 1) as usize)
        &&& encodes_at(e, pos, s.last())
    }
}

/// The members `s` of the object at position `i` are held in order after it.
pub open spec fn encodes_members(e: Seq<Entry>, i: int, s: Seq<(String, JsonTree)>) -> bool
    decreases s,
{
    if s.len() == 0 {
        true
    } else {
        let pos = i + 1 + members_count(s.drop_last());
        &&& encodes_members(e, i, s.drop_last())
        &&& e[pos].parent == i
        &&& e[pos].index == JsonIndex::Key(s.last().0)
        &&& encodes_at(e, pos, s.last().1)
    }
}

proof fn lemma_flatten_encodes(
    e: Seq<Entry>,
    t: JsonTree,
    index: JsonIndex,
    level: usize,
    parent: usize,
    base: nat,
)
    requires
        base + value_count(t) <= e.len(),
        base + value_count(t) <= usize::MAX,
        e.subrange(base as int, (base + value_count(t)) as int) == flatten(t, index, level, parent, base),
    ensures
        encodes_at(e, base as int, t),
    decreases t,
{
    let f = flatten(t, index, level, parent, base);
    lemma_flatten_len(t, index, level, parent, base);
    assert(e[base as int] == f[0]);
    match t {
        JsonTree::Leaf(_) => {},
        JsonTree::Array(items) => {
            let fi = flatten_items(items@, (level + 1) as usize, base as usize, base + 1);
            lemma_flatten_items_len(items@, (level + 1) as usize, base as usize, base + 1);
            let whole = e.subrange(base as int, (base + value_count(t)) as int);
            assert(e.subrange((base + 1) as int, (base + 1 + items_count(items@)) as int) =~= fi) by {
                assert forall|k: int| 0 <= k < fi.len() implies #[trigger] e.subrange(
                    (base + 1) as int,
                    (base + 1 + items_count(items@)) as int,
                )[k] == fi[k] by {
                    assert(whole[k + 1] == f[k + 1]);
                }
            }
            lemma_items_encode(e, items@, (level + 1) as usize, base as usize, base + 1);
        },
        JsonTree::Object(members) => {
            let fm = flatten_members(members@, (level + 1) as usize, base as usize, base + 1);
            lemma_flatten_members_len(members@, (level + 1) as usize, base as usize, base + 1);
            let whole = e.subrange(base as int, (base + value_count(t)) as int);
            assert(e.subrange((base + 1) as int, (base + 1 + members_count(members@)) as int) =~= fm) by {
                assert forall|k: int| 0 <= k < fm.len() implies #[trigger] e.subrange(
                    (base + 1) as int,
                    (base + 1 + members_count(members@)) as int,
                )[k] == fm[k] by {
                    assert(whole[k + 1] == f[k + 1]);
                }
            }
            lemma_members_encode(e, members@, (level + 1) as usize, base as usize, base + 1);
        },
    }
}

proof fn lemma_items_encode(e: Seq<Entry>, s: Seq<JsonTree>, level: usize, parent: usize, base: nat)
    requires
        base == parent + 1,
        base + items_count(s) <= e.len(),
        base + items_count(s) <= usize::MAX,
        e.subrange(base as int, (base + items_count(s)) as int) == flatten_items(s, level, parent, base),
    ensures
        encodes_items(e, parent as int, s),
    decreases s,
{
    if s.len() > 0 {
        let p = flatten_items(s.drop_last(), level, parent, base);
        let b2 = base + p.len();
        let f = flatten(s.last(), JsonIndex::Index((s.len() - 1) as usize), level, parent, b2);
        lemma_flatten_items_len(s.drop_last(), level, parent, base);
        lemma_flatten_len(s.last(), JsonIndex::Index((s.len() - 1) as usize), level, parent, b2);
        assert(items_count(s) == items_count(s.drop_last()) + value_count(s.last()));
        let whole = e.subrange(base as int, (base + items_count(s)) as int);
        assert(whole == p + f);
        assert(e.subrange(base as int, (base + items_count(s.drop_last())) as int) =~= p) by {
            assert forall|k: int| 0 <= k < p.len() implies #[trigger] e.subrange(
                base as int,
                (base + items_count(s.drop_last())) as int,
            )[k] == p[k] by {
                assert(whole[k] == p[k]);
            }
        }
        lemma_items_encode(e, s.drop_last(), level, parent, base);
        assert(e.subrange(b2 as int, (b2 + value_count(s.last())) as int) =~= f) by {
            assert forall|k: int| 0 <= k < f.len() implies #[trigger] e.subrange(
                b2 as int,
                (b2 + value_count(s.last())) as int,
            )[k] == f[k] by {
                assert(whole[p.len() + k] == f[k]);
            }
        }
        lemma_flatten_encodes(e, s.last(), JsonIndex::Index((s.len() - 1) as usize), level, parent, b2);
        assert(e[b2 as int] == whole[p.len() as int]);
    }
}

proof fn lemma_members_encode(e: Seq<Entry>, s: Seq<(String, JsonTree)>, level: usize, parent: usize, base: nat)
    requires
        base == parent + 1,
        base + members_count(s) <= e.len(),
        base + members_count(s) <= usize::MAX,
        e.subrange(base as int, (base + members_count(s)) as int) == flatten_members(s, level, parent, base),
    ensures
        encodes_members(e, parent as int, s),
    decreases s,
{
    if s.len() > 0 {
        let p = flatten_members(s.drop_last(), level, parent, base);
        let b2 = base + p.len();
        let f = flatten(s.last().1, JsonIndex::Key(s.last().0), level, parent, b2);
        lemma_flatten_members_len(s.drop_last(), level, parent, base);
        lemma_flatten_len(s.last().1, JsonIndex::Key(s.last().0), level, parent, b2);
        assert(members_count(s) == members_count(s.drop_last()) + value_count(s.last().1));
        let whole = e.subrange(base as int, (base + members_count(s)) as int);
        assert(whole == p + f);
        assert(e.subrange(base as int, (base + members_count(s.drop_last())) as int) =~= p) by {
            assert forall|k: int| 0 <= k < p.len() implies #[trigger] e.subrange(
                base as int,
                (base + members_count(s.drop_last())) as int,
            )[k] == p[k] by {
                assert(whole[k] == p[k]);
            }
        }
        lemma_members_encode(e, s.drop_last(), level, parent, base);
        assert(e.subrange(b2 as int, (b2 + value_count(s.last().1)) as int) =~= f) by {
            assert forall|k: int| 0 <= k < f.len() implies #[trigger] e.subrange(
                b2 as int,
                (b2 + value_count(s.last().1)) as int,
            )[k] == f[k] by {
                assert(whole[p.len() + k] == f[k]);
            }
        }
        lemma_flatten_encodes(e, s.last().1, JsonIndex::Key(s.last().0), level, parent, b2);
        assert(e[b2 as int] == whole[p.len() as int]);
    }
}

/// Law: reading a document loses nothing: the entries hold the whole
/// document, each scalar in its entry and each array's elements and object's
/// members in order, with their positions and keys. Together with
/// `lemma_from_json_sizes`, the elements so placed are all the entries whose
/// parent the array or object is.
pub proof fn lemma_from_json_keeps_document(json: JsonTree)
    requires
        value_count(json) + 100 <= usize::MAX,
    ensures
        encodes_at(flatten(json, JsonIndex::Root, 0, 0, 0), 0, json),
{
    let e = flatten(json, JsonIndex::Root, 0, 0, 0);
    lemma_flatten_len(json, JsonIndex::Root, 0, 0, 0);
    assert(e.subrange(0, value_count(json) as int) =~= e);
    lemma_flatten_encodes(e, json, JsonIndex::Root, 0, 0, 0);
}

/// Law: the filter's selection lists positions of entries in strictly
/// increasing order; it lists exactly the entries that the pattern selects.
pub proof fn lemma_matching_ids(entries: Seq<Entry>, pattern: Seq<char>)
    requires
        entries.len() <= usize::MAX,
    ensures
        ({
            let ids = matching_ids(entries, pattern);
            &&& forall|i: int, j: int| 0 <= i < j < ids.len() ==> #[trigger] ids[i].0 < #[trigger] ids[j].0
            &&& forall|i: int|
                0 <= i < ids.len() ==> #[trigger] ids[i].0 < entries.len() && entry_matches(
                    entries[ids[i].0 as int],
                    pattern,
                )
            &&& forall|k: int|
                0 <= k < entries.len() && entry_matches(#[trigger] entries[k], pattern) ==> exists|i: int|
                    0 <= i < ids.len() && #[trigger] ids[i].0 == k
        }),
    decreases entries.len(),
{
    if entries.len() > 0 {
        let prev = entries.drop_last();
        let ids = matching_ids(entries, pattern);
        let pids = matching_ids(prev, pattern);
        lemma_matching_ids(prev, pattern);
        assert forall|i: int| 0 <= i < pids.len() implies #[trigger] ids[i] == pids[i] by {}
        assert forall|i: int|
            0 <= i < ids.len() implies #[trigger] ids[i].0 < entries.len() && entry_matches(
                entries[ids[i].0 as int],
                pattern,
            ) by {
            if i < pids.len() {
                assert(prev[pids[i].0 as int] == entries[pids[i].0 as int]);
            }
        }
        assert forall|k: int|
            0 <= k < entries.len() && entry_matches(#[trigger] entries[k], pattern) implies exists|i: int|
                0 <= i < ids.len() && #[trigger] ids[i].0 == k by {
            if k < prev.len() {
                assert(entry_matches(prev[k], pattern));
                let i = choose|i: int| 0 <= i < pids.len() && #[trigger] pids[i].0 == k;
                assert(ids[i] == pids[i]);
            } else {
                assert(ids[pids.len() as int].0 == k);
            }
        }
    }
}


/// Law: the rows are the rendered entries in document order, each at most
/// once, and each with the mark of its entry; every array and object is
/// rendered; and a row is marked only if the filter's selection lists its entry.
pub proof fn lemma_rows(entries: Seq<Entry>, filter: Seq<EntryId>, n: nat)
    requires
        n <= entries.len(),
        entries.len() <= usize::MAX,
    ensures
        ({
            let ids = shown_ids(entries, n);
            let marks = shown_marks(entries, filter, n);
            &&& marks.len() == ids.len()
            &&& forall|i: int, j: int| 0 <= i < j < ids.len() ==> #[trigger] ids[i] < #[trigger] ids[j]
            &&& forall|i: int|
                0 <= i < ids.len() ==> #[trigger] ids[i] < n && is_shown(entries, ids[i] as nat)
                    && marks[i] == is_marked(entries, filter, ids[i] as nat)
            &&& forall|k: nat|
                k < n && #[trigger] is_shown(entries, k) ==> exists|i: int|
                    0 <= i < ids.len() && #[trigger] ids[i] == k
            &&& forall|k: nat|
                k < n && is_container(#[trigger] entries[k as int].value) ==> is_shown(entries, k)
            &&& forall|i: int|
                0 <= i < ids.len() && #[trigger] marks[i] ==> exists|j: int|
                    0 <= j < filter.len() && #[trigger] filter[j].0 == ids[i]
        }),
    decreases n,
{
    if n > 0 {
        let m = (n - 1) as nat;
        let ids = shown_ids(entries, n);
        let marks = shown_marks(entries, filter, n);
        let pids = shown_ids(entries, m);
        let pmarks = shown_marks(entries, filter, m);
        lemma_rows(entries, filter, m);
        assert forall|i: int| 0 <= i < pids.len() implies #[trigger] ids[i] == pids[i] && marks[i]
            == pmarks[i] by {}
        assert forall|k: nat| k < n && #[trigger] is_shown(entries, k) implies exists|i: int|
            0 <= i < ids.len() && #[trigger] ids[i] == k by {
            if k < m {
                let i = choose|i: int| 0 <= i < pids.len() && #[trigger] pids[i] == k;
                assert(ids[i] == pids[i]);
            } else {
                assert(ids[pids.len() as int] == k);
            }
        }
        assert forall|i: int| 0 <= i < ids.len() && #[trigger] marks[i] implies exists|j: int|
            0 <= j < filter.len() && #[trigger] filter[j].0 == ids[i] by {
            if i < pids.len() {
                assert(pmarks[i]);
            } else {
                let c = filter_cursor(entries, filter, m);
                assert(filter[c as int].0 == ids[i]);
            }
        }
    }
}

proof fn lemma_cursor(entries: Seq<Entry>, filter: Seq<EntryId>, n: nat)
    requires
        n <= entries.len(),
        forall|i: int, j: int| 0 <= i < j < filter.len() ==> #[trigger] filter[i].0 < #[trigger] filter[j].0,
        forall|j: int|
            0 <= j < filter.len() ==> #[trigger] filter[j].0 < entries.len() && is_shown(
                entries,
                filter[j].0 as nat,
            ),
    ensures
        filter_cursor(entries, filter, n) <= filter.len(),
        forall|j: int| 0 <= j < filter_cursor(entries, filter, n) ==> #[trigger] filter[j].0 < n,
        forall|j: int|
            filter_cursor(entries, filter, n) <= j < filter.len() ==> #[trigger] filter[j].0 >= n,
    decreases n,
{
    if n > 0 {
        let m = (n - 1) as nat;
        lemma_cursor(entries, filter, m);
        let c = filter_cursor(entries, filter, m);
        if c < filter.len() && filter[c as int].0 == m {
            assert forall|j: int| c + 1 <= j < filter.len() implies #[trigger] filter[j].0 >= n by {
                assert(filter[c as int].0 < filter[j].0);
            }
        } else {
            assert forall|j: int| c <= j < filter.len() implies #[trigger] filter[j].0 >= n by {
                if j > c {
                    assert(filter[c as int].0 < filter[j].0);
                }
            }
        }
    }
}

/// Law: when the filter's selection lists positions in strictly increasing
/// order and every listed entry is rendered (as `set_filter` leaves it when
/// no fold hides a selected entry), a rendered entry's row is marked exactly
/// when the selection lists the entry.
pub proof fn lemma_marks_follow_selection(entries: Seq<Entry>, filter: Seq<EntryId>)
    requires
        forall|i: int, j: int| 0 <= i < j < filter.len() ==> #[trigger] filter[i].0 < #[trigger] filter[j].0,
        forall|j: int|
            0 <= j < filter.len() ==> #[trigger] filter[j].0 < entries.len() && is_shown(
                entries,
                filter[j].0 as nat,
            ),
    ensures
        forall|k: nat|
            k < entries.len() && is_shown(entries, k) ==> (#[trigger] is_marked(entries, filter, k)
                <==> exists|j: int| 0 <= j < filter.len() && #[trigger] filter[j].0 == k),
{
    assert forall|k: nat|
        k < entries.len() && is_shown(entries, k) implies (#[trigger] is_marked(entries, filter, k)
            <==> exists|j: int| 0 <= j < filter.len() && #[trigger] filter[j].0 == k) by {
        lemma_cursor(entries, filter, k);
        let c = filter_cursor(entries, filter, k);
        if exists|j: int| 0 <= j < filter.len() && #[trigger] filter[j].0 == k {
            let j = choose|j: int| 0 <= j < filter.len() && #[trigger] filter[j].0 == k;
            assert(j >= c);
            if j > c {
                assert(filter[c as int].0 < filter[j].0);
            }
        }
    }
}


/// Law: after `set_value` puts a scalar into an entry, the entry's row shows
/// that scalar's text and kind, under the same name as before.
pub proof fn lemma_set_value_shown(e: Entry, leaf: JsonLeaf)
    ensures
        entry_text(e.with_value(JsonValue::Value(leaf))) == leaf_text(leaf),
        entry_name(e.with_value(JsonValue::Value(leaf))) == entry_name(e),
        e.with_value(JsonValue::Value(leaf)).level == e.level,
{
}

/// Law: after `set_key` gives an entry a key, the entry's row is named by
/// that key in double quotes and shows the same value as before.
pub proof fn lemma_set_key_shown(e: Entry, key: String)
    ensures
        entry_name(e.with_index(JsonIndex::Key(key))) == "\""@ + key@ + "\""@,
        entry_text(e.with_index(JsonIndex::Key(key))) == entry_text(e),
        e.with_index(JsonIndex::Key(key)).index is Key,
{
}

/// Law: an unfolded array or object shows the scalar that directly follows
/// it one level deeper (its first element), while a folded one hides it; so
/// unfolding a container reveals its scalars.
pub proof fn lemma_unfolding_reveals(entries: Seq<Entry>, k: int)
    requires
        0 <= k,
        k + 1 < entries.len(),
        entries.len() <= usize::MAX,
        is_container(entries[k].value),
        entries[k + 1].value is Value,
        entries[k + 1].level == entries[k].level + 1,
    ensures
        is_unfolded(entries[k]) ==> exists|i: int|
            0 <= i < shown_ids(entries, entries.len()).len() && #[trigger] shown_ids(
                entries,
                entries.len(),
            )[i] == k + 1,
        !is_unfolded(entries[k]) ==> forall|i: int|
            0 <= i < shown_ids(entries, entries.len()).len() ==> #[trigger] shown_ids(
                entries,
                entries.len(),
            )[i] != k + 1,
{
    lemma_rows(entries, Seq::<EntryId>::empty(), entries.len());
    let n = (k + 1) as nat;
    assert(fold_level(entries, n) == if is_unfolded(entries[k]) {
        entries[k].level + 1
    } else {
        entries[k].level as int
    });
    if is_unfolded(entries[k]) {
        assert(is_shown(entries, n));
    } else {
        assert(!is_shown(entries, n));
    }
}

/// Law: an accepted value edit stores the edited scalar: it is accepted
/// exactly when the edit's document is a scalar and entry `id` exists, and
/// then entry `id` holds that scalar, keeps its parent, index and depth, and
/// every other entry is unchanged; a refused edit changes nothing.
pub proof fn lemma_value_edit_stores(entries: Seq<Entry>, id: usize, parsed: Option<JsonTree>)
    ensures
        ({
            let (r, after) = value_edit(entries, id, parsed);
            &&& (r is Ok <==> (parsed matches Some(JsonTree::Leaf(_)) && id < entries.len()))
            &&& after.len() == entries.len()
            &&& r is Err ==> after == entries
            &&& parsed matches Some(JsonTree::Leaf(leaf)) ==> id < entries.len() ==> {
                &&& after[id as int].value == JsonValue::Value(leaf)
                &&& after[id as int].parent == entries[id as int].parent
                &&& after[id as int].index == entries[id as int].index
                &&& after[id as int].level == entries[id as int].level
            }
            &&& forall|j: int| 0 <= j < entries.len() && j != id ==> #[trigger] after[j] == entries[j]
        }),
{
}

/// Law: an accepted key edit stores the edited key: it is accepted exactly
/// when the edit's document is a string and entry `id` exists, and then
/// entry `id` is reached by that key, whatever index it had, keeps its
/// parent, value and depth, and every other entry is unchanged; a refused
/// edit changes nothing.
pub proof fn lemma_key_edit_stores(entries: Seq<Entry>, id: usize, parsed: Option<JsonTree>)
    ensures
        ({
            let (r, after) = key_edit(entries, id, parsed);
            &&& (r is Ok <==> (parsed matches Some(JsonTree::Leaf(JsonLeaf::String(_))) && id
                < entries.len()))
            &&& after.len() == entries.len()
            &&& r is Err ==> after == entries
            &&& parsed matches Some(JsonTree::Leaf(JsonLeaf::String(key))) ==> id < entries.len() ==> {
                &&& after[id as int].index == JsonIndex::Key(key)
                &&& after[id as int].parent == entries[id as int].parent
                &&& after[id as int].value == entries[id as int].value
                &&& after[id as int].level == entries[id as int].level
            }
            &&& forall|j: int| 0 <= j < entries.len() && j != id ==> #[trigger] after[j] == entries[j]
        }),
{
}

/// Law: the filter selects an entry exactly when the pattern matches its key,
/// or its scalar's text: a string by its characters, a number by its JSON
/// text, a boolean by `true` or `false`; `null` only through its key.
pub proof fn lemma_selection_by_text(entries: Seq<Entry>, pattern: Seq<char>, k: int)
    requires
        entries.len() <= usize::MAX,
        0 <= k < entries.len(),
    ensures
        (exists|i: int|
            0 <= i < matching_ids(entries, pattern).len() && #[trigger] matching_ids(entries, pattern)[i].0
                == k) <==> ({
            ||| entries[k].index matches JsonIndex::Key(key) && pattern_matches(pattern, key@)
            ||| entries[k].value == JsonValue::Value(JsonLeaf::Bool(true)) && pattern_matches(pattern, "true"@)
            ||| entries[k].value == JsonValue::Value(JsonLeaf::Bool(false)) && pattern_matches(pattern, "false"@)
            ||| entries[k].value matches JsonValue::Value(JsonLeaf::String(s)) && pattern_matches(pattern, s@)
            ||| entries[k].value matches JsonValue::Value(JsonLeaf::Number(n)) && pattern_matches(pattern, n@)
        }),
{
    lemma_matching_ids(entries, pattern);
    let ids = matching_ids(entries, pattern);
    if exists|i: int| 0 <= i < ids.len() && #[trigger] ids[i].0 == k {
        let i = choose|i: int| 0 <= i < ids.len() && #[trigger] ids[i].0 == k;
        assert(entry_matches(entries[ids[i].0 as int], pattern));
    }
}

proof fn lemma_fold_level_last(e: Seq<Entry>, n: nat)
    requires
        n <= e.len(),
    ensures
        forall|c: int|
            0 <= c < n && is_container((#[trigger] e[c]).value) && (forall|m: int|
                c < m < n ==> !is_container(#[trigger] e[m].value)) ==> fold_level(e, n) == e[c].level
                + if is_unfolded(e[c]) {
                1int
            } else {
                0int
            },
        (forall|m: int| 0 <= m < n ==> !is_container(#[trigger] e[m].value)) ==> fold_level(e, n) == 1,
    decreases n,
{
    if n > 0 {
        lemma_fold_level_last(e, (n - 1) as nat);
        assert forall|c: int|
            0 <= c < n && is_container((#[trigger] e[c]).value) && (forall|m: int|
                c < m < n ==> !is_container(#[trigger] e[m].value)) implies fold_level(e, n) == e[c].level
            + if is_unfolded(e[c]) {
            1int
        } else {
            0int
        } by {
            if c < n - 1 {
                assert(!is_container(e[n - 1].value));
                assert forall|m: int| c < m < n - 1 implies !is_container(#[trigger] e[m].value) by {}
            }
        }
        if forall|m: int| 0 <= m < n ==> !is_container(#[trigger] e[m].value) {
            assert(!is_container(e[n - 1].value));
            assert forall|m: int| 0 <= m < n - 1 implies !is_container(#[trigger] e[m].value) by {}
        }
    }
}

/// Law: every array and object is rendered; a scalar is rendered exactly
/// when it lies no deeper than the depth the last array or object before it
/// opens: that container's own depth when folded, one more when unfolded,
/// and depth 1 when no container comes before it.
pub proof fn lemma_shown_by_last_container(e: Seq<Entry>, k: int)
    requires
        0 <= k < e.len(),
    ensures
        is_container(e[k].value) ==> is_shown(e, k as nat),
        forall|c: int|
            0 <= c < k && is_container((#[trigger] e[c]).value) && (forall|m: int|
                c < m < k ==> !is_container(#[trigger] e[m].value)) ==> (e[k].value is Value ==> (is_shown(
                e,
                k as nat,
            ) <==> e[k].level <= e[c].level + if is_unfolded(e[c]) {
                1int
            } else {
                0int
            })),
        (forall|m: int| 0 <= m < k ==> !is_container(#[trigger] e[m].value)) ==> (e[k].value is Value
            ==> (is_shown(e, k as nat) <==> e[k].level <= 1)),
{
    lemma_fold_level_last(e, k as nat);
}

/// Law: when every array and object of a read document is unfolded, every
/// entry is rendered. The entries need only have the shape reading gives
/// (`lemma_from_json_tree`, `lemma_flatten_nested`).
pub proof fn lemma_unfolded_shows_all(e: Seq<Entry>, k: int)
    requires
        0 <= k < e.len(),
        e[0].level == 0,
        forall|i: int| 0 < i < e.len() ==> #[trigger] hangs_below_earlier(e, 0, i),
        forall|i: int| 0 < i < e.len() ==> #[trigger] nested_at(e, 0, i),
        forall|i: int| 0 <= i < e.len() && is_container((#[trigger] e[i]).value) ==> is_unfolded(e[i]),
    ensures
        is_shown(e, k as nat),
{
    lemma_fold_level_last(e, k as nat);
    if k > 0 && !is_container(e[k].value) {
        assert(hangs_below_earlier(e, 0, k));
        assert(nested_at(e, 0, k));
        let p = e[k].parent as int;
        assert(is_container(e[p].value));
        if exists|j: int| p < j < k && is_container(#[trigger] e[j].value) {
            lemma_last_container(e, p + 1, k);
            let c = choose|c: int|
                p + 1 <= c < k && is_container((#[trigger] e[c]).value) && (forall|m: int|
                    c < m < k ==> !is_container(#[trigger] e[m].value));
            assert(e[c].level >= e[k].level);
            assert(is_unfolded(e[c]));
        } else {
            assert forall|m: int| p < m < k implies !is_container(#[trigger] e[m].value) by {}
            assert(is_unfolded(e[p]));
        }
    } else if k == 0 && !is_container(e[0].value) {
        assert(fold_level(e, 0) == 1);
    }
}

/// Law: a row shows its entry: `null`, `true` and `false` by those words, a
/// number by its JSON text, a string as JSON writes it (quoted, escaped), an
/// array or object by its opening bracket; the root by no name, an array
/// element by its position in decimal, an object member by its key in double
/// quotes; the kind matches the value; and it has a key exactly for object
/// members.
pub proof fn lemma_row_shows_entry(row: RenderedValue, e: Entry, id: usize, mark: bool)
    requires
        renders(row, e, id, mark),
    ensures
        row.id == id && row.level == e.level && row.in_filter == mark,
        e.value == JsonValue::Value(JsonLeaf::Null) ==> row.value@ == "null"@ && row.value_type
            == ValueType::Null,
        e.value == JsonValue::Value(JsonLeaf::Bool(true)) ==> row.value@ == "true"@ && row.value_type
            == ValueType::Bool,
        e.value == JsonValue::Value(JsonLeaf::Bool(false)) ==> row.value@ == "false"@ && row.value_type
            == ValueType::Bool,
        e.value matches JsonValue::Value(JsonLeaf::Number(n)) ==> row.value@ == n@ && row.value_type
            == ValueType::Number,
        e.value matches JsonValue::Value(JsonLeaf::String(s)) ==> row.value@ == seq!['"'] + json_escape(s@)
            + seq!['"'] && row.value_type == ValueType::String,
        e.value is Array ==> row.value@ == "["@ && row.value_type == ValueType::Array,
        e.value is Object ==> row.value@ == "{"@ && row.value_type == ValueType::Object,
        e.index is Root ==> row.name@.len() == 0 && !row.has_key,
        e.index matches JsonIndex::Index(i) ==> decimal_value(row.name@) == Some(i as nat) && !row.has_key,
        e.index matches JsonIndex::Key(k) ==> row.name@ == "\""@ + k@ + "\""@ && row.has_key,
{
    if let JsonIndex::Index(i) = e.index {
        lemma_decimal_reads_back(i as nat);
    }
}

} // verus!
