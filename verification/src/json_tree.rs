use vstd::prelude::*;

verus! {

/// A scalar JSON value. A number is held by its canonical JSON text.
#[derive(Debug)]
pub enum JsonLeaf {
    Null,
    Bool(bool),
    Number(String),
    String(String),
}

/// A JSON document. The members of an object are listed in the order in
/// which the document's map yields them.
#[derive(Debug)]
pub enum JsonTree {
    Leaf(JsonLeaf),
    Array(Vec<JsonTree>),
    Object(Vec<(String, JsonTree)>),
}

/// Number of values in a document: the value itself plus all values nested in it.
pub open spec fn value_count(t: JsonTree) -> nat
    decreases t,
{
    match t {
        JsonTree::Leaf(_) => 1,
        JsonTree::Array(items) => 1 + items_count(items@),
        JsonTree::Object(members) => 1 + members_count(members@),
    }
}

/// Number of values in a sequence of documents.
pub open spec fn items_count(s: Seq<JsonTree>) -> nat
    decreases s,
{
    if s.len() == 0 {
        0
    } else {
        items_count(s.drop_last()) + value_count(s.last())
    }
}

/// Number of values in the member values of an object.
pub open spec fn members_count(s: Seq<(String, JsonTree)>) -> nat
    decreases s,
{
    if s.len() == 0 {
        0
    } else {
        members_count(s.drop_last()) + value_count(s.last().1)
    }
}

/// The values of a prefix of a sequence of documents are no more than those of the whole.
pub proof fn lemma_items_count_prefix(s: Seq<JsonTree>, n: int)
    requires
        0 <= n <= s.len(),
    ensures
        items_count(s.take(n)) <= items_count(s),
    decreases s.len() - n,
{
    if n < s.len() {
        lemma_items_count_prefix(s, n + 1);
        assert(s.take(n + 1).drop_last() =~= s.take(n));
    } else {
        assert(s.take(n) =~= s);
    }
}

/// The values of a prefix of an object's members are no more than those of all members.
pub proof fn lemma_members_count_prefix(s: Seq<(String, JsonTree)>, n: int)
    requires
        0 <= n <= s.len(),
    ensures
        members_count(s.take(n)) <= members_count(s),
    decreases s.len() - n,
{
    if n < s.len() {
        lemma_members_count_prefix(s, n + 1);
        assert(s.take(n + 1).drop_last() =~= s.take(n));
    } else {
        assert(s.take(n) =~= s);
    }
}

} // verus!
