//! The value builder: turns a parse tree into a [`JsonValue`] or an
//! error, dispatching on each node's rule label.
//!
//! The whole transformation is pinned by the specification function
//! [`build_spec`]: the executable [`build`] returns exactly what
//! `build_spec` states for the tree's view, error cases included.

use crate::number::is_number_text;
use crate::number::parse_number;
use crate::number::spec_parse_number;
use crate::tree::nodes_view;
use crate::tree::Node;
use crate::tree::NodeModel;
use crate::tree::Rule;
use crate::value::entries_to_map;
use crate::value::entry_views;
use crate::value::unique_keys;
use crate::value::values_view;
use crate::value::JsonModel;
use crate::value::JsonValue;
use vstd::prelude::*;

verus! {

/// Why a build failed.
#[derive(Clone, Copy, Debug, PartialEq, Eq, Structural)]
pub enum BuildError {
    /// The parse tree misses an expected child node: a value wrapper
    /// with nothing inside it, or an object entry without a key node or
    /// a value node.
    Structure,
    /// A leaf's matched text does not parse as its primitive: a boolean
    /// that is neither `true` nor `false`, or a malformed number.
    Conversion,
    /// The node carries a rule label the builder does not recognize;
    /// the label is returned with the error.
    UnhandledRule(Rule),
}

/// What one object entry contributes: its key node's matched text and
/// the build of its value node. An entry with fewer than two children
/// misses its key or its value.
pub open spec fn obj_entry_spec(p: NodeModel) -> Result<(Seq<char>, JsonModel), BuildError>
    decreases p,
{
    if p.children.len() < 2 {
        Err(BuildError::Structure)
    } else {
        match build_spec(p.children[1]) {
            Ok(v) => Ok((p.children[0].text, v)),
            Err(e) => Err(e),
        }
    }
}

/// The mapping an object's entries denote, entries inserted in order —
/// a later entry overrides an earlier one with the same key — stopping
/// at the first entry that fails.
pub open spec fn build_object_spec(s: Seq<NodeModel>) -> Result<
    Map<Seq<char>, JsonModel>,
    BuildError,
>
    decreases s,
{
    if s.len() == 0 {
        Ok(Map::empty())
    } else {
        match build_object_spec(s.drop_last()) {
            Ok(m) => match obj_entry_spec(s.last()) {
                Ok(e) => Ok(m.insert(e.0, e.1)),
                Err(err) => Err(err),
            },
            Err(err) => Err(err),
        }
    }
}

/// The values an array's children build to, in child order, stopping at
/// the first child that fails.
pub open spec fn build_array_spec(s: Seq<NodeModel>) -> Result<Seq<JsonModel>, BuildError>
    decreases s,
{
    if s.len() == 0 {
        Ok(Seq::empty())
    } else {
        match build_array_spec(s.drop_last()) {
            Ok(vs) => match build_spec(s.last()) {
                Ok(v) => Ok(vs.push(v)),
                Err(e) => Err(e),
            },
            Err(e) => Err(e),
        }
    }
}

/// What a parse-tree node builds to, by its rule label: `null` and
/// `bool` and `number` and string content map to the matching value,
/// arrays and objects recurse over their children, a `value` wrapper
/// unwraps to its single child, and any other label is refused with
/// that label.
pub open spec fn build_spec(n: NodeModel) -> Result<JsonModel, BuildError>
    decreases n,
{
    match n.rule {
        Rule::Null => Ok(JsonModel::Null),
        Rule::Bool => if n.text == "true"@ {
            Ok(JsonModel::Bool(true))
        } else if n.text == "false"@ {
            Ok(JsonModel::Bool(false))
        } else {
            Err(BuildError::Conversion)
        },
        Rule::Number => match spec_parse_number(n.text) {
            Some(m) => Ok(JsonModel::Number(m)),
            None => Err(BuildError::Conversion),
        },
        Rule::Chars => Ok(JsonModel::String(n.text)),
        Rule::Array => match build_array_spec(n.children) {
            Ok(vs) => Ok(JsonModel::Array(vs)),
            Err(e) => Err(e),
        },
        Rule::Object => match build_object_spec(n.children) {
            Ok(m) => Ok(JsonModel::Object(m)),
            Err(e) => Err(e),
        },
        Rule::Value => if n.children.len() == 0 {
            Err(BuildError::Structure)
        } else {
            build_spec(n.children[0])
        },
        r => Err(BuildError::UnhandledRule(r)),
    }
}

/// The view of a build result: the value's view on success, the error
/// itself on failure.
pub open spec fn res_view(r: Result<JsonValue, BuildError>) -> Result<JsonModel, BuildError> {
    match r {
        Ok(v) => Ok(v@),
        Err(e) => Err(e),
    }
}

/// Builds the value a parse tree denotes.
///
/// The result is exactly what [`build_spec`] states for the tree: the
/// same value on success and the same error on failure, and a built
/// value is well formed — every object in it has unique keys.
pub fn build(node: &Node) -> (r: Result<JsonValue, BuildError>)
    ensures
        res_view(r) == build_spec(node@),
        r matches Ok(v) ==> v.wf(),
    decreases node,
{
    match node.rule {
        Rule::Null => Ok(JsonValue::Null),
        Rule::Bool => {
            let t = "true".to_owned();
            let f = "false".to_owned();
            if node.text == t {
                Ok(JsonValue::Bool(true))
            } else if node.text == f {
                Ok(JsonValue::Bool(false))
            } else {
                Err(BuildError::Conversion)
            }
        },
        Rule::Number => match parse_number(node.text.as_str()) {
            Some(n) => Ok(JsonValue::Number(n)),
            None => Err(BuildError::Conversion),
        },
        Rule::Chars => Ok(JsonValue::String(node.text.clone())),
        Rule::Array => match build_array(&node.children) {
            Ok(elems) => Ok(JsonValue::Array(elems)),
            Err(e) => Err(e),
        },
        Rule::Object => match build_object(&node.children) {
            Ok(entries) => Ok(JsonValue::Object(entries)),
            Err(e) => Err(e),
        },
        Rule::Value => {
            if node.children.len() == 0 {
                Err(BuildError::Structure)
            } else {
                proof {
                    assert(node@.children[0] == node.children@[0]@);
                }
                build(&node.children[0])
            }
        },
        r => Err(BuildError::UnhandledRule(r)),
    }
}

/// Builds every child of an array node, in order, stopping at the first
/// failure.
fn build_array(children: &Vec<Node>) -> (r: Result<Vec<JsonValue>, BuildError>)
    ensures
        match r {
            Ok(vs) => build_array_spec(nodes_view(children@)) == Ok::<Seq<JsonModel>, BuildError>(values_view(vs@)) && forall|
                i: int,
            | 0 <= i < vs@.len() ==> (#[trigger] vs@[i]).wf(),
            Err(e) => build_array_spec(nodes_view(children@)) == Err::<Seq<JsonModel>, BuildError>(
                e,
            ),
        },
    decreases children,
{
    let ghost s = nodes_view(children@);
    let n = children.len();
    let mut out: Vec<JsonValue> = Vec::new();
    let mut i: usize = 0;
    proof {
        assert(s.subrange(0, 0) =~= Seq::<NodeModel>::empty());
        assert(values_view(out@) =~= Seq::<JsonModel>::empty());
    }
    while i < n
        invariant
            0 <= i <= n,
            n == children@.len(),
            s == nodes_view(children@),
            build_array_spec(s.subrange(0, i as int)) == Ok::<Seq<JsonModel>, BuildError>(values_view(out@)),
            forall|k: int| 0 <= k < out@.len() ==> (#[trigger] out@[k]).wf(),
        decreases n - i,
    {
        let ghost pre = s.subrange(0, i as int);
        match build(&children[i]) {
            Ok(v) => {
                let ghost vals = values_view(out@);
                out.push(v);
                proof {
                    assert(s.subrange(0, i + 1).drop_last() =~= pre);
                    assert(s.subrange(0, i + 1).last() == s[i as int]);
                    assert(values_view(out@) =~= vals.push(v@));
                }
            },
            Err(e) => {
                proof {
                    lemma_array_first_error(s, i as int, e);
                }
                return Err(e);
            },
        }
        i = i + 1;
    }
    proof {
        assert(s.subrange(0, n as int) =~= s);
    }
    Ok(out)
}

/// Builds every entry of an object node, in order, stopping at the
/// first failure; a later entry overrides an earlier one with the same
/// key.
fn build_object(children: &Vec<Node>) -> (r: Result<Vec<(String, JsonValue)>, BuildError>)
    ensures
        match r {
            Ok(entries) => build_object_spec(nodes_view(children@)) == Ok::<
                Map<Seq<char>, JsonModel>,
                BuildError,
            >(entries_to_map(entry_views(entries@))) && unique_keys(entries@) && forall|k: int|
                0 <= k < entries@.len() ==> (#[trigger] entries@[k]).1.wf(),
            Err(e) => build_object_spec(nodes_view(children@)) == Err::<
                Map<Seq<char>, JsonModel>,
                BuildError,
            >(e),
        },
    decreases children,
{
    let ghost s = nodes_view(children@);
    let n = children.len();
    let mut entries: Vec<(String, JsonValue)> = Vec::new();
    let mut i: usize = 0;
    proof {
        assert(s.subrange(0, 0) =~= Seq::<NodeModel>::empty());
        assert(entry_views(entries@) =~= Seq::<(Seq<char>, JsonModel)>::empty());
    }
    while i < n
        invariant
            0 <= i <= n,
            n == children@.len(),
            s == nodes_view(children@),
            build_object_spec(s.subrange(0, i as int)) == Ok::<Map<Seq<char>, JsonModel>, BuildError>(entries_to_map(entry_views(entries@))),
            unique_keys(entries@),
            forall|k: int| 0 <= k < entries@.len() ==> (#[trigger] entries@[k]).1.wf(),
        decreases n - i,
    {
        let ghost pre = s.subrange(0, i as int);
        let p = &children[i];
        proof {
            assert(s[i as int] == p@);
        }
        if p.children.len() < 2 {
            proof {
                lemma_object_first_error(s, i as int, BuildError::Structure);
            }
            return Err(BuildError::Structure);
        }
        let key = p.children[0].text.clone();
        proof {
            assert(p@.children[0] == p.children@[0]@);
            assert(p@.children[1] == p.children@[1]@);
        }
        match build(&p.children[1]) {
            Ok(v) => {
                let ghost m = entries_to_map(entry_views(entries@));
                insert_entry(&mut entries, key, v);
                proof {
                    assert(s.subrange(0, i + 1).drop_last() =~= pre);
                    assert(s.subrange(0, i + 1).last() == s[i as int]);
                    assert(obj_entry_spec(s[i as int]) == Ok::<(Seq<char>, JsonModel), BuildError>(
                        (p@.children[0].text, v@),
                    ));
                }
            },
            Err(e) => {
                proof {
                    assert(obj_entry_spec(s[i as int]) == Err::<
                        (Seq<char>, JsonModel),
                        BuildError,
                    >(e));
                    lemma_object_first_error(s, i as int, e);
                }
                return Err(e);
            },
        }
        i = i + 1;
    }
    proof {
        assert(s.subrange(0, n as int) =~= s);
    }
    Ok(entries)
}

/// Inserts one key/value entry: replaces the entry with the same key in
/// place where one exists, appends otherwise. At the map view this is
/// exactly an insertion, the new binding overriding an old one.
fn insert_entry(entries: &mut Vec<(String, JsonValue)>, key: String, val: JsonValue)
    requires
        unique_keys(old(entries)@),
        val.wf(),
        forall|k: int| 0 <= k < old(entries)@.len() ==> (#[trigger] old(entries)@[k]).1.wf(),
    ensures
        unique_keys(final(entries)@),
        entries_to_map(entry_views(final(entries)@)) == entries_to_map(
            entry_views(old(entries)@),
        ).insert(key@, val@),
        forall|k: int| 0 <= k < final(entries)@.len() ==> (#[trigger] final(entries)@[k]).1.wf(),
{
    let ghost orig = entries@;
    let n = entries.len();
    let mut j: usize = 0;
    while j < n
        invariant
            0 <= j <= n,
            n == entries@.len(),
            entries@ == orig,
            orig == old(entries)@,
            unique_keys(orig),
            val.wf(),
            forall|k: int| 0 <= k < orig.len() ==> (#[trigger] orig[k]).1.wf(),
            forall|k: int| 0 <= k < j ==> (#[trigger] orig[k]).0@ != key@,
        decreases n - j,
    {
        if entries[j].0 == key {
            proof {
                assert(key@ == orig[j as int].0@);
            }
            let _ = entries.remove(j);
            entries.insert(j, (key, val));
            proof {
                assert(entries@ =~= orig.update(j as int, (key, val)));
                assert(entry_views(entries@) =~= entry_views(orig).update(
                    j as int,
                    (key@, val@),
                ));
                assert forall|a: int, b: int|
                    0 <= a < b < entry_views(orig).len() implies (#[trigger] entry_views(
                    orig,
                )[a]).0 != (#[trigger] entry_views(orig)[b]).0 by {
                    assert(orig[a].0@ != orig[b].0@);
                }
                lemma_entries_map_update(entry_views(orig), j as int, (key@, val@));
                assert forall|a: int, b: int|
                    0 <= a < b < entries@.len() implies (#[trigger] entries@[a]).0@
                    != (#[trigger] entries@[b]).0@ by {
                    assert(entries@[a].0@ == orig[a].0@);
                    assert(entries@[b].0@ == orig[b].0@);
                    assert(orig[a].0@ != orig[b].0@);
                }
                assert(unique_keys(entries@));
            }
            return ;
        }
        j = j + 1;
    }
    entries.push((key, val));
    proof {
        assert(entry_views(entries@).drop_last() =~= entry_views(orig));
        assert(entry_views(entries@).last() == (entries@.last().0@, entries@.last().1@));
        assert(unique_keys(entries@));
    }
}

/// Updating the one entry that holds a key is, at the map view, the
/// same as inserting the new binding for that key.
proof fn lemma_entries_map_update(s: Seq<(Seq<char>, JsonModel)>, j: int, e: (Seq<char>, JsonModel))
    requires
        0 <= j < s.len(),
        e.0 == s[j].0,
        forall|a: int, b: int| 0 <= a < b < s.len() ==> (#[trigger] s[a]).0 != (#[trigger] s[b]).0,
    ensures
        entries_to_map(s.update(j, e)) == entries_to_map(s).insert(e.0, e.1),
    decreases s.len(),
{
    let s2 = s.update(j, e);
    if j == s.len() - 1 {
        assert(s2.drop_last() =~= s.drop_last());
        assert(entries_to_map(s2) =~= entries_to_map(s).insert(e.0, e.1));
    } else {
        assert(s2.drop_last() =~= s.drop_last().update(j, e));
        lemma_entries_map_update(s.drop_last(), j, e);
        assert(s.last().0 != e.0);
        assert(s2.last() == s.last());
        assert(entries_to_map(s2) =~= entries_to_map(s).insert(e.0, e.1));
    }
}

/// Where a prefix of an array's children builds cleanly and the next
/// child fails, the whole array fails with that child's error.
proof fn lemma_array_first_error(s: Seq<NodeModel>, i: int, e: BuildError)
    requires
        0 <= i < s.len(),
        build_array_spec(s.subrange(0, i)) is Ok,
        build_spec(s[i]) == Err::<JsonModel, BuildError>(e),
    ensures
        build_array_spec(s) == Err::<Seq<JsonModel>, BuildError>(e),
    decreases s.len(),
{
    if s.len() == i + 1 {
        assert(s.drop_last() =~= s.subrange(0, i));
        assert(s.last() == s[i]);
    } else {
        assert(s.drop_last().subrange(0, i) =~= s.subrange(0, i));
        assert(s.drop_last()[i] == s[i]);
        lemma_array_first_error(s.drop_last(), i, e);
    }
}

/// Where a prefix of an object's entries builds cleanly and the next
/// entry fails, the whole object fails with that entry's error.
proof fn lemma_object_first_error(s: Seq<NodeModel>, i: int, e: BuildError)
    requires
        0 <= i < s.len(),
        build_object_spec(s.subrange(0, i)) is Ok,
        obj_entry_spec(s[i]) == Err::<(Seq<char>, JsonModel), BuildError>(e),
    ensures
        build_object_spec(s) == Err::<Map<Seq<char>, JsonModel>, BuildError>(e),
    decreases s.len(),
{
    if s.len() == i + 1 {
        assert(s.drop_last() =~= s.subrange(0, i));
        assert(s.last() == s[i]);
    } else {
        assert(s.drop_last().subrange(0, i) =~= s.subrange(0, i));
        assert(s.drop_last()[i] == s[i]);
        lemma_object_first_error(s.drop_last(), i, e);
    }
}

/// The matched text of an object entry's key node.
pub open spec fn entry_key(p: NodeModel) -> Seq<char> {
    p.children[0].text
}

/// Building is a function of the tree alone: equal parse trees build to
/// equal results, so the transformation is pure.
pub proof fn lemma_build_deterministic(a: NodeModel, b: NodeModel)
    requires
        a == b,
    ensures
        build_spec(a) == build_spec(b),
{
}

/// A number node whose matched text the number grammar accepts always
/// builds, to the canonical decimal that the text denotes.
pub proof fn lemma_number_literal(n: NodeModel)
    requires
        n.rule == Rule::Number,
        is_number_text(n.text),
    ensures
        build_spec(n) is Ok,
        build_spec(n)->Ok_0 == JsonModel::Number(spec_parse_number(n.text)->Some_0),
{
}

proof fn lemma_array_spec_shape(s: Seq<NodeModel>)
    requires
        build_array_spec(s) is Ok,
    ensures
        build_array_spec(s)->Ok_0.len() == s.len(),
        forall|i: int|
            0 <= i < s.len() ==> build_spec(#[trigger] s[i]) == Ok::<JsonModel, BuildError>(
                build_array_spec(s)->Ok_0[i],
            ),
    decreases s.len(),
{
    if s.len() > 0 {
        lemma_array_spec_shape(s.drop_last());
        assert forall|i: int| 0 <= i < s.len() implies build_spec(#[trigger] s[i]) == Ok::<
            JsonModel,
            BuildError,
        >(build_array_spec(s)->Ok_0[i]) by {
            if i < s.len() - 1 {
                assert(s.drop_last()[i] == s[i]);
            } else {
                assert(s[i] == s.last());
            }
        }
    }
}

/// An array builds to exactly one value per child node, in child
/// order: the sequence has the children's length, and its i-th element
/// is the build of the i-th child.
pub proof fn lemma_array_order(n: NodeModel)
    requires
        n.rule == Rule::Array,
        build_spec(n) is Ok,
    ensures
        build_spec(n)->Ok_0 is Array,
        build_spec(n)->Ok_0->Array_0.len() == n.children.len(),
        forall|i: int|
            0 <= i < n.children.len() ==> build_spec(#[trigger] n.children[i]) == Ok::<
                JsonModel,
                BuildError,
            >(build_spec(n)->Ok_0->Array_0[i]),
{
    lemma_array_spec_shape(n.children);
}

proof fn lemma_object_spec_keys(s: Seq<NodeModel>)
    requires
        build_object_spec(s) is Ok,
    ensures
        forall|i: int| 0 <= i < s.len() ==> obj_entry_spec(#[trigger] s[i]) is Ok,
        forall|k: Seq<char>|
            #[trigger] build_object_spec(s)->Ok_0.contains_key(k) <==> exists|i: int|
                0 <= i < s.len() && entry_key(#[trigger] s[i]) == k,
        forall|i: int|
            0 <= i < s.len() && (forall|j: int|
                i < j < s.len() ==> entry_key(#[trigger] s[j]) != entry_key(s[i]))
                ==> build_object_spec(s)->Ok_0[entry_key(#[trigger] s[i])] == build_spec(
                s[i].children[1],
            )->Ok_0,
    decreases s.len(),
{
    if s.len() > 0 {
        lemma_object_spec_keys(s.drop_last());
        let pre = build_object_spec(s.drop_last())->Ok_0;
        let m = build_object_spec(s)->Ok_0;
        let last = s.last();
        assert forall|i: int| 0 <= i < s.len() implies obj_entry_spec(#[trigger] s[i]) is Ok by {
            if i < s.len() - 1 {
                assert(s.drop_last()[i] == s[i]);
            } else {
                assert(s[i] == last);
            }
        }
        assert(m == pre.insert(entry_key(last), obj_entry_spec(last)->Ok_0.1));
        assert forall|k: Seq<char>| #[trigger] m.contains_key(k) implies exists|i: int|
            0 <= i < s.len() && entry_key(#[trigger] s[i]) == k by {
            if k == entry_key(last) {
                assert(entry_key(s[s.len() - 1]) == k);
            } else {
                assert(pre.contains_key(k));
                let i = choose|i: int| 0 <= i < s.drop_last().len() && entry_key(
                    #[trigger] s.drop_last()[i],
                ) == k;
                assert(s.drop_last()[i] == s[i]);
                assert(entry_key(s[i]) == k);
            }
        }
        assert forall|k: Seq<char>|
            (exists|i: int| 0 <= i < s.len() && entry_key(#[trigger] s[i]) == k) implies (
        #[trigger] m.contains_key(k)) by {
            let i = choose|i: int| 0 <= i < s.len() && entry_key(#[trigger] s[i]) == k;
            if i < s.len() - 1 {
                assert(s.drop_last()[i] == s[i]);
                assert(pre.contains_key(k));
            } else {
                assert(s[i] == last);
            }
        }
        assert forall|i: int|
            0 <= i < s.len() && (forall|j: int|
                i < j < s.len() ==> entry_key(#[trigger] s[j]) != entry_key(s[i])) implies m[
        entry_key(#[trigger] s[i])] == build_spec(s[i].children[1])->Ok_0 by {
            if i == s.len() - 1 {
                assert(s[i] == last);
            } else {
                assert(entry_key(s[s.len() - 1]) != entry_key(s[i]));
                assert(m[entry_key(s[i])] == pre[entry_key(s[i])]);
                assert(s.drop_last()[i] == s[i]);
                assert forall|j: int|
                    i < j < s.drop_last().len() implies entry_key(#[trigger] s.drop_last()[j])
                    != entry_key(s.drop_last()[i]) by {
                    assert(s.drop_last()[j] == s[j]);
                }
            }
        }
    }
}

/// A built object's key set is exactly the matched texts of its
/// entries' key nodes, and where a key is named more than once the last
/// entry's value wins.
pub proof fn lemma_object_keys(n: NodeModel)
    requires
        n.rule == Rule::Object,
        build_spec(n) is Ok,
    ensures
        build_spec(n)->Ok_0 is Object,
        forall|i: int| 0 <= i < n.children.len() ==> obj_entry_spec(#[trigger] n.children[i]) is Ok,
        forall|k: Seq<char>|
            #[trigger] build_spec(n)->Ok_0->Object_0.contains_key(k) <==> exists|i: int|
                0 <= i < n.children.len() && entry_key(#[trigger] n.children[i]) == k,
        forall|i: int|
            0 <= i < n.children.len() && (forall|j: int|
                i < j < n.children.len() ==> entry_key(#[trigger] n.children[j]) != entry_key(
                    n.children[i],
                )) ==> build_spec(n)->Ok_0->Object_0[entry_key(#[trigger] n.children[i])]
                == build_spec(n.children[i].children[1])->Ok_0,
{
    lemma_object_spec_keys(n.children);
}

} // verus!
