//! An item palette's tree: node labels, free palette ids, and adding and
//! deleting nodes.
use crate::clipboard::edit_made;
use crate::itp::{json_views, member_views, str_eq, ItpFile, JsonNumber, JsonValue, JsonView};
use crate::model::{history_wf, ActionView, DocView, Document, DocumentData, EditAction};
use vstd::prelude::*;

verus! {

pub proof fn lemma_json_views(s: Seq<JsonValue>)
    ensures
        json_views(s).len() == s.len(),
        forall|i: int| 0 <= i < s.len() ==> #[trigger] json_views(s)[i] == s[i]@,
    decreases s.len(),
{
    if s.len() > 0 {
        lemma_json_views(s.drop_last());
    }
}

pub proof fn lemma_member_views(s: Seq<(String, JsonValue)>)
    ensures
        member_views(s).len() == s.len(),
        forall|i: int| 0 <= i < s.len() ==> #[trigger] member_views(s)[i] == (s[i].0@, s[i].1@),
    decreases s.len(),
{
    if s.len() > 0 {
        lemma_member_views(s.drop_last());
    }
}

// ---------------------------------------------------------------------------
// Reading fields.
/// `i` is the first member of `ms` named `key`.
pub open spec fn is_first_key(ms: Seq<(Seq<char>, JsonView)>, key: Seq<char>, i: int) -> bool {
    &&& 0 <= i < ms.len()
    &&& ms[i].0 == key
    &&& forall|j: int| 0 <= j < i ==> ms[j].0 != key
}

/// The position of the first member named `key`.
pub open spec fn key_index(ms: Seq<(Seq<char>, JsonView)>, key: Seq<char>) -> Option<int> {
    if exists|i: int| is_first_key(ms, key, i) {
        Some(choose|i: int| is_first_key(ms, key, i))
    } else {
        None
    }
}

/// The member `key` of an object.
pub open spec fn get(v: JsonView, key: Seq<char>) -> Option<JsonView> {
    match v {
        JsonView::Object(ms) => match key_index(ms, key) {
            Some(i) => Some(ms[i].1),
            None => None,
        },
        _ => None,
    }
}

/// The value of the typed field `key` of a node (the JSON pointer
/// `/key/value`).
pub open spec fn field(v: JsonView, key: Seq<char>) -> Option<JsonView> {
    match get(v, key) {
        Some(f) => get(f, "value"@),
        None => None,
    }
}

/// The nodes of a node's `LIST` field, when it is a list.
pub open spec fn children(n: JsonView) -> Option<Seq<JsonView>> {
    match field(n, "LIST"@) {
        Some(JsonView::Array(items)) => Some(items),
        _ => None,
    }
}

/// The top-level nodes of a palette: its `MAIN` field, when it is a list.
pub open spec fn main_nodes(root: JsonView) -> Option<Seq<JsonView>> {
    match field(root, "MAIN"@) {
        Some(JsonView::Array(items)) => Some(items),
        _ => None,
    }
}

fn key_pos(ms: &Vec<(String, JsonValue)>, key: &str) -> (r: Option<usize>)
    ensures
        match r {
            Some(i) => key_index(member_views(ms@), key@) == Some(i as int),
            None => key_index(member_views(ms@), key@) is None,
        },
{
    let ghost mv = member_views(ms@);
    proof {
        lemma_member_views(ms@);
    }
    let mut i: usize = 0;
    while i < ms.len()
        invariant
            i <= ms@.len(),
            mv == member_views(ms@),
            mv.len() == ms@.len(),
            forall|j: int| 0 <= j < i ==> mv[j].0 != key@,
        decreases ms@.len() - i,
    {
        proof {
            lemma_member_views(ms@);
        }
        assert(mv[i as int] == (ms@[i as int].0@, ms@[i as int].1@));
        if str_eq(ms[i].0.as_str(), key) {
            proof {
                assert(is_first_key(mv, key@, i as int));
                let m = choose|m: int| is_first_key(mv, key@, m);
                assert(is_first_key(mv, key@, m));
                if m < i {
                    assert(mv[m].0 != key@);
                }
                if m > i {
                    assert(mv[i as int].0 != key@);
                }
            }
            return Some(i);
        }
        i = i + 1;
    }
    proof {
        assert forall|m: int| !is_first_key(mv, key@, m) by {
            if 0 <= m < mv.len() {
                assert(mv[m].0 != key@);
            }
        }
    }
    None
}

/// The member `key` of an object (see `get`).
fn get_exec<'a>(v: &'a JsonValue, key: &str) -> (r: Option<&'a JsonValue>)
    ensures
        match r {
            Some(x) => get(v@, key@) == Some(x@),
            None => get(v@, key@) is None,
        },
{
    match v {
        JsonValue::Object(ms) => match key_pos(ms, key) {
            Some(i) => {
                proof {
                    lemma_member_views(ms@);
                }
                Some(&ms[i].1)
            },
            None => None,
        },
        _ => None,
    }
}

/// The value of a node's typed field `key` (see `field`).
fn field_exec<'a>(v: &'a JsonValue, key: &str) -> (r: Option<&'a JsonValue>)
    ensures
        match r {
            Some(x) => field(v@, key@) == Some(x@),
            None => field(v@, key@) is None,
        },
{
    match get_exec(v, key) {
        Some(f) => get_exec(f, "value"),
        None => None,
    }
}

// ---------------------------------------------------------------------------
// Labels.
/// A node's non-empty text field `key`.
pub open spec fn text_field(n: JsonView, key: Seq<char>) -> Option<Seq<char>> {
    match field(n, key) {
        Some(JsonView::String(s)) => if s.len() > 0 {
            Some(s)
        } else {
            None
        },
        _ => None,
    }
}

/// A node's unsigned number field `key`.
pub open spec fn number_field(n: JsonView, key: Seq<char>) -> Option<u64> {
    match field(n, key) {
        Some(JsonView::Number(JsonNumber::PosInt(v))) => Some(v),
        _ => None,
    }
}

/// The label the tree shows for a node: its category name, name or resref,
/// the first that is a non-empty text; else `StrRef` and its string
/// reference; else `Palette node`.
pub open spec fn node_label(n: JsonView) -> Seq<char> {
    match text_field(n, "DELETE_ME"@) {
        Some(s) => s,
        None => match text_field(n, "NAME"@) {
            Some(s) => s,
            None => match text_field(n, "RESREF"@) {
                Some(s) => s,
                None => match number_field(n, "STRREF"@) {
                    Some(v) => "StrRef "@ + crate::numtext::digits(v as nat, 10),
                    None => "Palette node"@,
                },
            },
        },
    }
}

fn text_field_exec(n: &JsonValue, key: &str) -> (r: Option<String>)
    ensures
        match r {
            Some(s) => text_field(n@, key@) == Some(s@),
            None => text_field(n@, key@) is None,
        },
{
    match field_exec(n, key) {
        Some(JsonValue::String(s)) => if s.as_str().is_empty() {
            None
        } else {
            Some(s.clone())
        },
        _ => None,
    }
}

/// The label the tree shows for a node (see `node_label`).
pub fn label_of(node: &JsonValue) -> (r: String)
    ensures
        r@ == node_label(node@),
{
    if let Some(s) = text_field_exec(node, "DELETE_ME") {
        return s;
    }
    if let Some(s) = text_field_exec(node, "NAME") {
        return s;
    }
    if let Some(s) = text_field_exec(node, "RESREF") {
        return s;
    }
    match field_exec(node, "STRREF") {
        Some(JsonValue::Number(JsonNumber::PosInt(v))) => {
            let prefix = crate::text::chars_of("StrRef ");
            let mut out = crate::text::string_of(prefix.as_slice());
            crate::numtext::push_digits(&mut out, *v, 10);
            out
        },
        _ => {
            let v = crate::text::chars_of("Palette node");
            crate::text::string_of(v.as_slice())
        },
    }
}

// ---------------------------------------------------------------------------
// Palette ids.
pub proof fn lemma_children_smaller(nodes: Seq<JsonView>, k: int)
    requires
        0 <= k < nodes.len(),
        children(nodes[k]) is Some,
    ensures
        decreases_to!(nodes => children(nodes[k])->0),
{
    let n = nodes[k];
    assert(decreases_to!(nodes => n));
    match n {
        JsonView::Object(ms) => {
            let i = key_index(ms, "LIST"@)->0;
            let f = ms[i].1;
            assert(decreases_to!(n => ms));
            assert(decreases_to!(ms => ms[i]));
            assert(decreases_to!(ms[i] => f));
            match f {
                JsonView::Object(fs) => {
                    let j = key_index(fs, "value"@)->0;
                    let v = fs[j].1;
                    assert(decreases_to!(f => fs));
                    assert(decreases_to!(fs => fs[j]));
                    assert(decreases_to!(fs[j] => v));
                    match v {
                        JsonView::Array(items) => {
                            assert(decreases_to!(v => items));
                            assert(decreases_to!(nodes => items));
                        },
                        _ => {},
                    }
                },
                _ => {},
            }
        },
        _ => {},
    }
}

/// The palette ids below 256 that `nodes` and the nodes below them use.
pub open spec fn used_ids(nodes: Seq<JsonView>) -> Set<nat>
    decreases nodes,
{
    if nodes.len() == 0 {
        Set::empty()
    } else {
        let n = nodes.last();
        let own = match number_field(n, "ID"@) {
            Some(id) => if id < 256 {
                set![id as nat]
            } else {
                Set::empty()
            },
            None => Set::empty(),
        };
        let below = match children(n) {
            Some(kids) => {
                proof {
                    lemma_children_smaller(nodes, nodes.len() - 1);
                }
                used_ids(kids)
            },
            None => Set::empty(),
        };
        used_ids(nodes.drop_last()) + own + below
    }
}

/// The first id from `k` on that is not used, or 0 when all 256 are.
pub open spec fn first_free(used: Set<nat>, k: nat) -> nat
    decreases 256 - k,
{
    if k >= 256 {
        0
    } else if !used.contains(k) {
        k
    } else {
        first_free(used, k + 1)
    }
}

/// The id a new terminal category gets: the smallest id below 256 that no
/// node of the palette uses, or 0 when all are used.
pub open spec fn next_palette_id(root: JsonView) -> u8 {
    let used = match main_nodes(root) {
        Some(nodes) => used_ids(nodes),
        None => Set::empty(),
    };
    first_free(used, 0) as u8
}

fn mark_ids(nodes: &Vec<JsonValue>, used: &mut Vec<bool>)
    requires
        old(used)@.len() == 256,
    ensures
        final(used)@.len() == 256,
        forall|i: int|
            0 <= i < 256 ==> (final(used)@[i] <==> (old(used)@[i] || used_ids(json_views(nodes@)).contains(
                i as nat,
            ))),
    decreases json_views(nodes@),
{
    let ghost nv = json_views(nodes@);
    proof {
        lemma_json_views(nodes@);
        assert(nv.take(0) =~= Seq::<JsonView>::empty());
    }
    let mut k: usize = 0;
    while k < nodes.len()
        invariant
            k <= nodes@.len(),
            nv == json_views(nodes@),
            nv.len() == nodes@.len(),
            forall|i: int| 0 <= i < nodes@.len() ==> #[trigger] nv[i] == nodes@[i]@,
            used@.len() == 256,
            forall|i: int|
                0 <= i < 256 ==> (used@[i] <==> (old(used)@[i] || used_ids(nv.take(k as int)).contains(
                    i as nat,
                ))),
        decreases nodes@.len() - k,
    {
        let node = &nodes[k];
        let ghost before = used@;
        proof {
            assert(nv.take(k + 1).drop_last() =~= nv.take(k as int));
            assert(nv.take(k + 1).last() == nv[k as int]);
        }
        match field_exec(node, "ID") {
            Some(JsonValue::Number(JsonNumber::PosInt(id))) => {
                if *id < 256 {
                    used.set(*id as usize, true);
                }
            },
            _ => {},
        }
        let ghost mid = used@;
        match field_exec(node, "LIST") {
            Some(JsonValue::Array(items)) => {
                proof {
                    assert(children(nv[k as int]) == Some(json_views(items@)));
                    lemma_children_smaller(nv, k as int);
                }
                mark_ids(items, used);
            },
            _ => {},
        }
        proof {
            let own = match number_field(nv[k as int], "ID"@) {
                Some(id) => if id < 256 {
                    set![id as nat]
                } else {
                    Set::<nat>::empty()
                },
                None => Set::<nat>::empty(),
            };
            assert forall|i: int| 0 <= i < 256 implies (mid[i] <==> (before[i] || own.contains(i as nat))) by {}
        }
        k = k + 1;
    }
    proof {
        assert(nv.take(nodes@.len() as int) =~= nv);
    }
}

/// The id a new terminal category gets (see `next_palette_id`).
pub fn next_id(root: &JsonValue) -> (r: u8)
    ensures
        r == next_palette_id(root@),
{
    let mut used: Vec<bool> = Vec::new();
    let mut i: usize = 0;
    while i < 256
        invariant
            i <= 256,
            used@.len() == i,
            forall|j: int| 0 <= j < i ==> !used@[j],
        decreases 256 - i,
    {
        used.push(false);
        i = i + 1;
    }
    let ghost set = match main_nodes(root@) {
        Some(nodes) => used_ids(nodes),
        None => Set::<nat>::empty(),
    };
    match field_exec(root, "MAIN") {
        Some(JsonValue::Array(nodes)) => {
            mark_ids(nodes, &mut used);
        },
        _ => {},
    }
    assert forall|j: int| 0 <= j < 256 implies (used@[j] <==> set.contains(j as nat)) by {}
    let mut k: usize = 0;
    while k < 256
        invariant
            k <= 256,
            used@.len() == 256,
            forall|j: int| 0 <= j < 256 ==> (used@[j] <==> set.contains(j as nat)),
            first_free(set, 0) == first_free(set, k as nat),
            first_free(set, 0) as u8 == next_palette_id(root@),
        decreases 256 - k,
    {
        if !used[k] {
            assert(!set.contains(k as nat));
            assert(first_free(set, k as nat) == k);
            return k as u8;
        }
        k = k + 1;
    }
    0
}

// ---------------------------------------------------------------------------
// Changing the tree.
/// `node` with the value of its typed field `key` set to `v`; unchanged when
/// it has no such field.
pub open spec fn set_field(node: JsonView, key: Seq<char>, v: JsonView) -> JsonView {
    match node {
        JsonView::Object(ms) => match key_index(ms, key) {
            Some(i) => match ms[i].1 {
                JsonView::Object(fs) => match key_index(fs, "value"@) {
                    Some(j) => JsonView::Object(
                        ms.update(i, (ms[i].0, JsonView::Object(fs.update(j, (fs[j].0, v))))),
                    ),
                    None => node,
                },
                _ => node,
            },
            None => node,
        },
        _ => node,
    }
}

/// The members with `key` set to `v`: in place when there is such a member,
/// else added at the end.
pub open spec fn put_member(ms: Seq<(Seq<char>, JsonView)>, key: Seq<char>, v: JsonView) -> Seq<
    (Seq<char>, JsonView),
> {
    match key_index(ms, key) {
        Some(i) => ms.update(i, (key, v)),
        None => ms.push((key, v)),
    }
}

/// A typed field: its type name and its value.
pub open spec fn typed_view(kind: Seq<char>, v: JsonView) -> JsonView {
    JsonView::Object(seq![("type"@, JsonView::String(kind)), ("value"@, v)])
}

/// A node's list of nodes below it, made empty when the node has none: the
/// node afterwards and the list. There is none when its `LIST` field is not
/// a list, or the node is not an object.
pub open spec fn own_list(node: JsonView) -> Option<(JsonView, Seq<JsonView>)> {
    match field(node, "LIST"@) {
        Some(JsonView::Array(items)) => Some((node, items)),
        Some(_) => None,
        None => match node {
            JsonView::Object(ms) => Some(
                (JsonView::Object(put_member(ms, "LIST"@, typed_view("list"@, JsonView::Array(seq![])))), seq![]),
            ),
            _ => None,
        },
    }
}

/// The list of the node at `path` (indexes from `nodes` down), made when the
/// node has none: the nodes afterwards and the list.
pub open spec fn node_list(nodes: Seq<JsonView>, path: Seq<usize>) -> Option<(Seq<JsonView>, Seq<JsonView>)>
    decreases path.len(),
{
    if path.len() == 0 || path[0] >= nodes.len() {
        None
    } else {
        let i = path[0] as int;
        let node = nodes[i];
        if path.len() == 1 {
            match own_list(node) {
                Some((node2, items)) => Some((nodes.update(i, node2), items)),
                None => None,
            }
        } else {
            match children(node) {
                Some(kids) => match node_list(kids, path.drop_first()) {
                    Some((kids2, items)) => Some(
                        (nodes.update(i, set_field(node, "LIST"@, JsonView::Array(kids2))), items),
                    ),
                    None => None,
                },
                None => None,
            }
        }
    }
}

/// `nodes` with the list of the node at `path` replaced by `items`.
pub open spec fn put_list(nodes: Seq<JsonView>, path: Seq<usize>, items: Seq<JsonView>) -> Seq<JsonView>
    decreases path.len(),
{
    if path.len() == 0 || path[0] >= nodes.len() {
        nodes
    } else {
        let i = path[0] as int;
        let node = nodes[i];
        if path.len() == 1 {
            nodes.update(i, set_field(node, "LIST"@, JsonView::Array(items)))
        } else {
            match children(node) {
                Some(kids) => nodes.update(
                    i,
                    set_field(node, "LIST"@, JsonView::Array(put_list(kids, path.drop_first(), items))),
                ),
                None => nodes,
            }
        }
    }
}

/// The list that `path` selects in a palette: the top-level nodes for the
/// empty path, else the list of the node at `path`, made when it has none.
/// Gives the palette afterwards and the list.
pub open spec fn root_list(root: JsonView, path: Seq<usize>) -> Option<(JsonView, Seq<JsonView>)> {
    match main_nodes(root) {
        Some(nodes) => if path.len() == 0 {
            Some((root, nodes))
        } else {
            match node_list(nodes, path) {
                Some((nodes2, items)) => Some((set_field(root, "MAIN"@, JsonView::Array(nodes2)), items)),
                None => None,
            }
        },
        None => None,
    }
}

/// The palette with the list that `path` selects replaced by `items`.
pub open spec fn put_root_list(root: JsonView, path: Seq<usize>, items: Seq<JsonView>) -> JsonView {
    match main_nodes(root) {
        Some(nodes) => if path.len() == 0 {
            set_field(root, "MAIN"@, JsonView::Array(items))
        } else {
            set_field(root, "MAIN"@, JsonView::Array(put_list(nodes, path, items)))
        },
        None => root,
    }
}

/// The palette with `x` added at the end of the list that `path` selects,
/// and where it went; none when there is no such list.
pub open spec fn pushed_tree(root: JsonView, path: Seq<usize>, x: JsonView) -> Option<(JsonView, nat)> {
    match root_list(root, path) {
        Some((r1, items)) => Some((put_root_list(r1, path, items.push(x)), items.len())),
        None => None,
    }
}

fn text(s: &str) -> (r: String)
    ensures
        r@ == s@,
{
    let v = crate::text::chars_of(s);
    crate::text::string_of(v.as_slice())
}

fn typed(kind: &str, v: JsonValue) -> (r: JsonValue)
    ensures
        r@ == typed_view(kind@, v@),
{
    let ms = vec![(text("type"), JsonValue::String(text(kind))), (text("value"), v)];
    proof {
        lemma_member_views(ms@);
        assert(member_views(ms@) =~= seq![("type"@, JsonView::String(kind@)), ("value"@, v@)]);
    }
    JsonValue::Object(ms)
}

fn dup_items(v: &Vec<JsonValue>) -> (r: Vec<JsonValue>)
    ensures
        json_views(r@) == json_views(v@),
{
    let mut out: Vec<JsonValue> = Vec::new();
    let mut i: usize = 0;
    while i < v.len()
        invariant
            i <= v@.len(),
            json_views(out@) == json_views(v@.take(i as int)),
        decreases v@.len() - i,
    {
        let x = v[i].duplicate();
        let ghost before = out@;
        out.push(x);
        proof {
            assert(out@.drop_last() =~= before);
            assert(v@.take(i + 1).drop_last() =~= v@.take(i as int));
        }
        i = i + 1;
    }
    proof {
        assert(v@.take(v@.len() as int) =~= v@);
    }
    out
}

/// The items with item `i` replaced by `x`.
fn replace_item(v: &Vec<JsonValue>, i: usize, x: JsonValue) -> (r: Vec<JsonValue>)
    requires
        i < v@.len(),
    ensures
        json_views(r@) == json_views(v@).update(i as int, x@),
{
    let mut out = dup_items(v);
    let ghost before = out@;
    proof {
        lemma_json_views(out@);
        lemma_json_views(v@);
    }
    out.set(i, x);
    proof {
        lemma_json_views(out@);
        assert(json_views(out@) =~= json_views(v@).update(i as int, x@));
    }
    out
}

/// The members with the value of member `i` replaced by `x`.
fn replace_member(ms: &Vec<(String, JsonValue)>, i: usize, x: JsonValue) -> (r: Vec<(String, JsonValue)>)
    requires
        i < ms@.len(),
    ensures
        member_views(r@) == member_views(ms@).update(i as int, (ms@[i as int].0@, x@)),
{
    let mut out: Vec<(String, JsonValue)> = Vec::new();
    let mut k: usize = 0;
    proof {
        lemma_member_views(ms@);
    }
    let mut x = Some(x);
    let ghost xv = x->0@;
    while k < ms.len()
        invariant
            k <= ms@.len(),
            i < ms@.len(),
            member_views(ms@).len() == ms@.len(),
            forall|j: int| 0 <= j < ms@.len() ==> #[trigger] member_views(ms@)[j] == (ms@[j].0@, ms@[j].1@),
            k <= i ==> x == Some(x->0) && x->0@ == xv,
            member_views(out@) == member_views(ms@).update(i as int, (ms@[i as int].0@, xv)).take(k as int),
        decreases ms@.len() - k,
    {
        let name = ms[k].0.clone();
        let value = if k == i {
            let v = x.take().unwrap();
            v
        } else {
            ms[k].1.duplicate()
        };
        let ghost before = out@;
        out.push((name, value));
        proof {
            assert(out@.drop_last() =~= before);
            let target = member_views(ms@).update(i as int, (ms@[i as int].0@, xv));
            assert(target.take(k + 1) =~= target.take(k as int).push(target[k as int]));
        }
        k = k + 1;
    }
    proof {
        let target = member_views(ms@).update(i as int, (ms@[i as int].0@, xv));
        assert(target.take(ms@.len() as int) =~= target);
    }
    out
}

/// `node` with the value of its typed field `key` set to `v` (see
/// `set_field`).
fn set_field_exec(node: &JsonValue, key: &str, v: JsonValue) -> (r: JsonValue)
    ensures
        r@ == set_field(node@, key@, v@),
{
    match node {
        JsonValue::Object(ms) => match key_pos(ms, key) {
            Some(i) => {
                proof {
                    lemma_member_views(ms@);
                }
                match &ms[i].1 {
                    JsonValue::Object(fs) => match key_pos(fs, "value") {
                        Some(j) => {
                            proof {
                                lemma_member_views(fs@);
                            }
                            let new_fs = replace_member(fs, j, v);
                            let new_ms = replace_member(ms, i, JsonValue::Object(new_fs));
                            JsonValue::Object(new_ms)
                        },
                        None => node.duplicate(),
                    },
                    _ => node.duplicate(),
                }
            },
            None => node.duplicate(),
        },
        _ => node.duplicate(),
    }
}

/// A node's own list, made when it has none (see `own_list`).
fn own_list_exec(node: &JsonValue) -> (r: Option<(JsonValue, Vec<JsonValue>)>)
    ensures
        match r {
            Some((n, items)) => own_list(node@) == Some((n@, json_views(items@))),
            None => own_list(node@) is None,
        },
{
    match field_exec(node, "LIST") {
        Some(JsonValue::Array(items)) => Some((node.duplicate(), dup_items(items))),
        Some(_) => None,
        None => match node {
            JsonValue::Object(ms) => {
                let empty = typed("list", JsonValue::Array(Vec::new()));
                proof {
                    assert(json_views(Seq::<JsonValue>::empty()) =~= Seq::<JsonView>::empty());
                }
                let new_ms = match key_pos(ms, "LIST") {
                    Some(i) => {
                        proof {
                            lemma_member_views(ms@);
                        }
                        let mut m = replace_member(ms, i, empty);
                        proof {
                            assert(member_views(m@) =~= put_member(
                                member_views(ms@),
                                "LIST"@,
                                typed_view("list"@, JsonView::Array(seq![])),
                            ));
                        }
                        m
                    },
                    None => {
                        let mut m: Vec<(String, JsonValue)> = Vec::new();
                        let mut k: usize = 0;
                        proof {
                            lemma_member_views(ms@);
                        }
                        while k < ms.len()
                            invariant
                                k <= ms@.len(),
                                member_views(ms@).len() == ms@.len(),
                                forall|j: int|
                                    0 <= j < ms@.len() ==> #[trigger] member_views(ms@)[j] == (ms@[j].0@, ms@[j].1@),
                                member_views(m@) == member_views(ms@).take(k as int),
                            decreases ms@.len() - k,
                        {
                            let name = ms[k].0.clone();
                            let value = ms[k].1.duplicate();
                            let ghost before = m@;
                            m.push((name, value));
                            proof {
                                assert(m@.drop_last() =~= before);
                                assert(member_views(ms@).take(k + 1) =~= member_views(ms@).take(k as int).push(
                                    member_views(ms@)[k as int],
                                ));
                            }
                            k = k + 1;
                        }
                        let ghost before = m@;
                        m.push((text("LIST"), empty));
                        proof {
                            assert(m@.drop_last() =~= before);
                            assert(member_views(ms@).take(ms@.len() as int) =~= member_views(ms@));
                        }
                        m
                    },
                };
                Some((JsonValue::Object(new_ms), Vec::new()))
            },
            _ => None,
        },
    }
}

fn node_list_exec(nodes: &Vec<JsonValue>, path: &Vec<usize>, k: usize) -> (r: Option<
    (Vec<JsonValue>, Vec<JsonValue>),
>)
    requires
        k <= path@.len(),
    ensures
        match r {
            Some((n2, items)) => node_list(json_views(nodes@), path@.skip(k as int)) == Some(
                (json_views(n2@), json_views(items@)),
            ),
            None => node_list(json_views(nodes@), path@.skip(k as int)) is None,
        },
    decreases path@.len() - k,
{
    let ghost p = path@.skip(k as int);
    proof {
        lemma_json_views(nodes@);
    }
    if k >= path.len() || path[k] >= nodes.len() {
        return None;
    }
    let i = path[k];
    proof {
        assert(p[0] == i);
        assert(p.drop_first() =~= path@.skip(k + 1));
    }
    let node = &nodes[i];
    if k + 1 == path.len() {
        match own_list_exec(node) {
            Some((n2, items)) => Some((replace_item(nodes, i, n2), items)),
            None => None,
        }
    } else {
        match field_exec(node, "LIST") {
            Some(JsonValue::Array(kids)) => match node_list_exec(kids, path, k + 1) {
                Some((kids2, items)) => {
                    let new_node = set_field_exec(node, "LIST", JsonValue::Array(kids2));
                    Some((replace_item(nodes, i, new_node), items))
                },
                None => None,
            },
            _ => None,
        }
    }
}

fn put_list_exec(nodes: &Vec<JsonValue>, path: &Vec<usize>, k: usize, items: Vec<JsonValue>) -> (r: Vec<
    JsonValue,
>)
    requires
        k <= path@.len(),
    ensures
        json_views(r@) == put_list(json_views(nodes@), path@.skip(k as int), json_views(items@)),
    decreases path@.len() - k,
{
    let ghost p = path@.skip(k as int);
    proof {
        lemma_json_views(nodes@);
    }
    if k >= path.len() || path[k] >= nodes.len() {
        return dup_items(nodes);
    }
    let i = path[k];
    proof {
        assert(p[0] == i);
        assert(p.drop_first() =~= path@.skip(k + 1));
    }
    let node = &nodes[i];
    if k + 1 == path.len() {
        let new_node = set_field_exec(node, "LIST", JsonValue::Array(items));
        replace_item(nodes, i, new_node)
    } else {
        match field_exec(node, "LIST") {
            Some(JsonValue::Array(kids)) => {
                let kids2 = put_list_exec(kids, path, k + 1, items);
                let new_node = set_field_exec(node, "LIST", JsonValue::Array(kids2));
                replace_item(nodes, i, new_node)
            },
            _ => dup_items(nodes),
        }
    }
}

/// The list that `path` selects (see `root_list`).
fn root_list_exec(root: &JsonValue, path: &Vec<usize>) -> (r: Option<(JsonValue, Vec<JsonValue>)>)
    ensures
        match r {
            Some((r1, items)) => root_list(root@, path@) == Some((r1@, json_views(items@))),
            None => root_list(root@, path@) is None,
        },
{
    match field_exec(root, "MAIN") {
        Some(JsonValue::Array(nodes)) => {
            if path.len() == 0 {
                return Some((root.duplicate(), dup_items(nodes)));
            }
            assert(path@.skip(0) =~= path@);
            match node_list_exec(nodes, path, 0) {
                Some((n2, items)) => Some((set_field_exec(root, "MAIN", JsonValue::Array(n2)), items)),
                None => None,
            }
        },
        _ => None,
    }
}

/// The palette with the list that `path` selects replaced (see
/// `put_root_list`).
fn put_root_list_exec(root: &JsonValue, path: &Vec<usize>, items: Vec<JsonValue>) -> (r: JsonValue)
    ensures
        r@ == put_root_list(root@, path@, json_views(items@)),
{
    match field_exec(root, "MAIN") {
        Some(JsonValue::Array(nodes)) => {
            if path.len() == 0 {
                return set_field_exec(root, "MAIN", JsonValue::Array(items));
            }
            assert(path@.skip(0) =~= path@);
            let n2 = put_list_exec(nodes, path, 0, items);
            set_field_exec(root, "MAIN", JsonValue::Array(n2))
        },
        _ => root.duplicate(),
    }
}

/// Whether two values are equal.
#[verifier::loop_isolation(false)]
pub fn json_eq(a: &JsonValue, b: &JsonValue) -> (r: bool)
    ensures
        r == (a@ == b@),
    decreases a,
{
    match (a, b) {
        (JsonValue::Null, JsonValue::Null) => true,
        (JsonValue::Bool(x), JsonValue::Bool(y)) => *x == *y,
        (JsonValue::Number(x), JsonValue::Number(y)) => *x == *y,
        (JsonValue::String(x), JsonValue::String(y)) => str_eq(x.as_str(), y.as_str()),
        (JsonValue::Array(xs), JsonValue::Array(ys)) => {
            proof {
                lemma_json_views(xs@);
                lemma_json_views(ys@);
            }
            if xs.len() != ys.len() {
                return false;
            }
            let mut i: usize = 0;
            while i < xs.len()
                invariant
                    i <= xs@.len(),
                    xs@.len() == ys@.len(),
                    json_views(xs@).len() == xs@.len(),
                    json_views(ys@).len() == ys@.len(),
                    forall|j: int| 0 <= j < xs@.len() ==> #[trigger] json_views(xs@)[j] == xs@[j]@,
                    forall|j: int| 0 <= j < ys@.len() ==> #[trigger] json_views(ys@)[j] == ys@[j]@,
                    forall|j: int| 0 <= j < i ==> xs@[j]@ == ys@[j]@,
                decreases xs@.len() - i,
            {
                if !json_eq(&xs[i], &ys[i]) {
                    assert(json_views(xs@)[i as int] != json_views(ys@)[i as int]);
                    assert(json_views(xs@) != json_views(ys@));
                    return false;
                }
                i = i + 1;
            }
            assert(json_views(xs@) =~= json_views(ys@));
            true
        },
        (JsonValue::Object(xs), JsonValue::Object(ys)) => {
            proof {
                lemma_member_views(xs@);
                lemma_member_views(ys@);
            }
            if xs.len() != ys.len() {
                return false;
            }
            let mut i: usize = 0;
            while i < xs.len()
                invariant
                    i <= xs@.len(),
                    xs@.len() == ys@.len(),
                    member_views(xs@).len() == xs@.len(),
                    member_views(ys@).len() == ys@.len(),
                    forall|j: int| 0 <= j < xs@.len() ==> #[trigger] member_views(xs@)[j] == (xs@[j].0@, xs@[j].1@),
                    forall|j: int| 0 <= j < ys@.len() ==> #[trigger] member_views(ys@)[j] == (ys@[j].0@, ys@[j].1@),
                    forall|j: int| 0 <= j < i ==> xs@[j].0@ == ys@[j].0@ && xs@[j].1@ == ys@[j].1@,
                decreases xs@.len() - i,
            {
                if !str_eq(xs[i].0.as_str(), ys[i].0.as_str()) || !json_eq(&xs[i].1, &ys[i].1) {
                    assert(member_views(xs@)[i as int] != member_views(ys@)[i as int]);
                    assert(member_views(xs@) != member_views(ys@));
                    return false;
                }
                i = i + 1;
            }
            assert(member_views(xs@) =~= member_views(ys@));
            true
        },
        _ => false,
    }
}

// ---------------------------------------------------------------------------
// New nodes.
pub open spec fn number_view(n: u64) -> JsonView {
    JsonView::Number(JsonNumber::PosInt(n))
}

/// A new category: named "New category", string reference 0, and an empty
/// list (members in the order the converter keeps them).
pub open spec fn category_node() -> JsonView {
    JsonView::Object(
        seq![
            ("DELETE_ME"@, typed_view("cexostring"@, JsonView::String("New category"@))),
            ("LIST"@, typed_view("list"@, JsonView::Array(seq![]))),
            ("STRREF"@, typed_view("dword"@, number_view(0))),
            ("__struct_id"@, number_view(1)),
        ],
    )
}

/// A new entry: named "New entry", with resref `new_entry`.
pub open spec fn entry_node() -> JsonView {
    JsonView::Object(
        seq![
            ("NAME"@, typed_view("cexostring"@, JsonView::String("New entry"@))),
            ("RESREF"@, typed_view("resref"@, JsonView::String("new_entry"@))),
            ("__struct_id"@, number_view(1)),
        ],
    )
}

/// A new terminal category with palette id `id`.
pub open spec fn terminal_node(id: u8) -> JsonView {
    JsonView::Object(
        seq![
            ("DELETE_ME"@, typed_view("cexostring"@, JsonView::String("New terminal category"@))),
            ("ID"@, typed_view("byte"@, number_view(id as u64))),
            ("STRREF"@, typed_view("dword"@, number_view(0))),
            ("__struct_id"@, number_view(1)),
        ],
    )
}

fn number(n: u64) -> (r: JsonValue)
    ensures
        r@ == number_view(n),
{
    JsonValue::Number(JsonNumber::PosInt(n))
}

fn object(ms: Vec<(String, JsonValue)>) -> (r: JsonValue)
    ensures
        r@ == JsonView::Object(member_views(ms@)),
{
    JsonValue::Object(ms)
}

fn new_category() -> (r: JsonValue)
    ensures
        r@ == category_node(),
{
    let ms = vec![
        (text("DELETE_ME"), typed("cexostring", JsonValue::String(text("New category")))),
        (text("LIST"), typed("list", JsonValue::Array(Vec::new()))),
        (text("STRREF"), typed("dword", number(0))),
        (text("__struct_id"), number(1)),
    ];
    proof {
        lemma_member_views(ms@);
        assert(json_views(Seq::<JsonValue>::empty()) =~= Seq::<JsonView>::empty());
        assert(member_views(ms@) =~= category_node()->Object_0);
    }
    object(ms)
}

fn new_entry_node() -> (r: JsonValue)
    ensures
        r@ == entry_node(),
{
    let ms = vec![
        (text("NAME"), typed("cexostring", JsonValue::String(text("New entry")))),
        (text("RESREF"), typed("resref", JsonValue::String(text("new_entry")))),
        (text("__struct_id"), number(1)),
    ];
    proof {
        lemma_member_views(ms@);
        assert(member_views(ms@) =~= entry_node()->Object_0);
    }
    object(ms)
}

fn new_terminal(id: u8) -> (r: JsonValue)
    ensures
        r@ == terminal_node(id),
{
    let ms = vec![
        (text("DELETE_ME"), typed("cexostring", JsonValue::String(text("New terminal category")))),
        (text("ID"), typed("byte", number(id as u64))),
        (text("STRREF"), typed("dword", number(0))),
        (text("__struct_id"), number(1)),
    ];
    proof {
        lemma_member_views(ms@);
        assert(member_views(ms@) =~= terminal_node(id)->Object_0);
    }
    object(ms)
}

// ---------------------------------------------------------------------------
// Editing a palette document.
/// After a palette edit that gives `tree`: when it differs from the old tree
/// it is recorded as one undoable edit; else nothing changed.
pub open spec fn palette_edited(old: Document, new: Document, tree: JsonView) -> bool {
    match old.data@ {
        DocView::Itp(t) => if tree == t {
            new.data == old.data && new.history == old.history && new.dirty == old.dirty
        } else {
            edit_made(old, new, ActionView::ItpTree { before: t, after: tree })
        },
        _ => false,
    }
}

/// Everything the editor shows of a document but the palette selection
/// agrees.
pub open spec fn keeps_view(a: Document, b: Document) -> bool {
    &&& a.search@ == b.search@
    &&& a.find_query@ == b.find_query@
    &&& a.replace@ == b.replace@
    &&& a.selected_row == b.selected_row
    &&& a.selected_rows@ == b.selected_rows@
    &&& a.selection_anchor == b.selection_anchor
    &&& a.selected_column == b.selected_column
    &&& a.selected_columns@ == b.selected_columns@
    &&& a.selected_cells@ == b.selected_cells@
    &&& a.cell_selection_anchor == b.cell_selection_anchor
    &&& a.scroll_to_selected == b.scroll_to_selected
    &&& a.table_first_row == b.table_first_row
    &&& a.tlk_modified@ == b.tlk_modified@
}

/// Adding node `x` at the end of the list that `path` selects, made when the
/// selected node has none: the change is recorded, and the new node is
/// selected when `select` is set. Nothing changes when there is no such list.
pub open spec fn node_added(
    old: Document,
    new: Document,
    path: Seq<usize>,
    x: JsonView,
    select: bool,
    added: bool,
) -> bool {
    match old.data@ {
        DocView::Itp(t) => match pushed_tree(t, path, x) {
            Some((t2, at)) => {
                &&& added
                &&& palette_edited(old, new, t2)
                &&& keeps_view(old, new)
                &&& new.itp_selected_path@ == if select {
                    path.push(at as usize)
                } else {
                    old.itp_selected_path@
                }
            },
            None => !added && new == old,
        },
        _ => !added && new == old,
    }
}

/// A new terminal category for a palette: with the next free palette id.
pub open spec fn terminal_for(d: DocView) -> JsonView {
    match d {
        DocView::Itp(t) => terminal_node(next_palette_id(t)),
        _ => terminal_node(0),
    }
}

/// Deleting the selected node: its parent's list (made when the parent has
/// none) loses it and nothing stays selected; when the node is past the end of
/// that list only the made list stays. Nothing changes without a selection or
/// such a list.
pub open spec fn node_deleted(old: Document, new: Document, deleted: bool) -> bool {
    let path = old.itp_selected_path@;
    match old.data@ {
        DocView::Itp(t) => if path.len() == 0 {
            !deleted && new == old
        } else {
            let parent = path.drop_last();
            let index = path.last();
            match root_list(t, parent) {
                Some((t1, items)) => if index < items.len() {
                    &&& deleted
                    &&& palette_edited(old, new, put_root_list(t1, parent, items.remove(index as int)))
                    &&& keeps_view(old, new)
                    &&& new.itp_selected_path@.len() == 0
                } else {
                    &&& !deleted
                    &&& palette_edited(old, new, t1)
                    &&& keeps_view(old, new)
                    &&& new.itp_selected_path@ == old.itp_selected_path@
                },
                None => !deleted && new == old,
            }
        },
        _ => !deleted && new == old,
    }
}

fn copy_path(p: &Vec<usize>, n: usize) -> (r: Vec<usize>)
    requires
        n <= p@.len(),
    ensures
        r@ == p@.take(n as int),
{
    let mut out: Vec<usize> = Vec::new();
    let mut i: usize = 0;
    while i < n
        invariant
            i <= n <= p@.len(),
            out@ == p@.take(i as int),
        decreases n - i,
    {
        out.push(p[i]);
        assert(p@.take(i + 1) =~= p@.take(i as int).push(p@[i as int]));
        i = i + 1;
    }
    out
}

impl Document {
    /// Makes `tree` the palette, recording the change when there is one.
    fn set_tree(&mut self, tree: JsonValue)
        requires
            history_wf(old(self).history@),
            old(self).data@ is Itp,
        ensures
            palette_edited(*old(self), *final(self), tree@),
            crate::model::same_view_state(*final(self), *old(self)),
            history_wf(final(self).history@),
    {
        let before = match &self.data {
            DocumentData::Itp(f) => {
                if json_eq(&f.root, &tree) {
                    return;
                }
                f.duplicate()
            },
            _ => {
                return;
            },
        };
        self.commit(EditAction::ItpTree { before, after: ItpFile { root: tree } });
    }

    fn push_node(&mut self, path: &Vec<usize>, x: JsonValue, select: bool) -> (added: bool)
        requires
            history_wf(old(self).history@),
        ensures
            node_added(*old(self), *final(self), path@, x@, select, added),
            history_wf(final(self).history@),
    {
        let (tree, at) = match &self.data {
            DocumentData::Itp(f) => match root_list_exec(&f.root, path) {
                Some((r1, items)) => {
                    proof {
                        lemma_json_views(items@);
                    }
                    let n = items.len();
                    let mut items = items;
                    let ghost before = items@;
                    items.push(x);
                    proof {
                        assert(items@.drop_last() =~= before);
                    }
                    (put_root_list_exec(&r1, path, items), n)
                },
                None => {
                    return false;
                },
            },
            _ => {
                return false;
            },
        };
        self.set_tree(tree);
        if select {
            let mut p = copy_path(path, path.len());
            p.push(at);
            proof {
                assert(path@.take(path@.len() as int) =~= path@);
            }
            self.itp_selected_path = p;
        }
        true
    }

    /// Adds a new category to the selected node's list (or to the top level
    /// when nothing is selected).
    pub fn itp_add_category(&mut self) -> (added: bool)
        requires
            history_wf(old(self).history@),
        ensures
            node_added(*old(self), *final(self), old(self).itp_selected_path@, category_node(), false, added),
            history_wf(final(self).history@),
    {
        let path = copy_path(&self.itp_selected_path, self.itp_selected_path.len());
        proof {
            assert(self.itp_selected_path@.take(self.itp_selected_path@.len() as int) =~= self.itp_selected_path@);
        }
        self.push_node(&path, new_category(), false)
    }

    /// Adds a new entry to the selected node's list (or to the top level when
    /// nothing is selected).
    pub fn itp_add_entry(&mut self) -> (added: bool)
        requires
            history_wf(old(self).history@),
        ensures
            node_added(*old(self), *final(self), old(self).itp_selected_path@, entry_node(), false, added),
            history_wf(final(self).history@),
    {
        let path = copy_path(&self.itp_selected_path, self.itp_selected_path.len());
        proof {
            assert(self.itp_selected_path@.take(self.itp_selected_path@.len() as int) =~= self.itp_selected_path@);
        }
        self.push_node(&path, new_entry_node(), false)
    }

    /// Adds a new category at the top level and selects it.
    pub fn itp_add_root_category(&mut self) -> (added: bool)
        requires
            history_wf(old(self).history@),
        ensures
            node_added(*old(self), *final(self), seq![], category_node(), true, added),
            history_wf(final(self).history@),
    {
        let path: Vec<usize> = Vec::new();
        assert(path@ =~= Seq::<usize>::empty());
        self.push_node(&path, new_category(), true)
    }

    /// Adds a new terminal category, with the next free palette id, to the
    /// list of the node at `parent` (the top level for the empty path) and
    /// selects it.
    pub fn itp_add_terminal(&mut self, parent: Vec<usize>) -> (added: bool)
        requires
            history_wf(old(self).history@),
        ensures
            node_added(*old(self), *final(self), parent@, terminal_for(old(self).data@), true, added),
            history_wf(final(self).history@),
    {
        let id = match &self.data {
            DocumentData::Itp(f) => next_id(&f.root),
            _ => {
                return false;
            },
        };
        self.push_node(&parent, new_terminal(id), true)
    }

    /// Deletes the selected node (see `node_deleted`). Gives whether a node
    /// was deleted.
    pub fn itp_delete_node(&mut self) -> (deleted: bool)
        requires
            history_wf(old(self).history@),
        ensures
            node_deleted(*old(self), *final(self), deleted),
            history_wf(final(self).history@),
    {
        let len = self.itp_selected_path.len();
        if len == 0 {
            return false;
        }
        let index = self.itp_selected_path[len - 1];
        let parent = copy_path(&self.itp_selected_path, len - 1);
        proof {
            assert(self.itp_selected_path@.drop_last() =~= self.itp_selected_path@.take(len - 1));
            assert(index == self.itp_selected_path@.last());
            assert(parent@ == old(self).itp_selected_path@.drop_last());
        }
        let (tree, removed) = match &self.data {
            DocumentData::Itp(f) => match root_list_exec(&f.root, &parent) {
                Some((r1, items)) => {
                    proof {
                        lemma_json_views(items@);
                    }
                    if index < items.len() {
                        let mut items = items;
                        let ghost before = items@;
                        items.remove(index);
                        proof {
                            lemma_json_views(before);
                            lemma_json_views(items@);
                            assert(json_views(items@) =~= json_views(before).remove(index as int));
                        }
                        (put_root_list_exec(&r1, &parent, items), true)
                    } else {
                        (r1, false)
                    }
                },
                None => {
                    return false;
                },
            },
            _ => {
                return false;
            },
        };
        self.set_tree(tree);
        if removed {
            self.itp_selected_path = Vec::new();
        }
        removed
    }
}

/// The palette with the value of field `key` of the node at `path` set to
/// `v`; none when there is no such node or it has no such field.
pub open spec fn with_field(root: JsonView, path: Seq<usize>, key: Seq<char>, v: JsonView) -> Option<JsonView> {
    if path.len() == 0 {
        None
    } else {
        let parent = path.drop_last();
        let index = path.last();
        match root_list(root, parent) {
            Some((t1, items)) => if index < items.len() && field(items[index as int], key) is Some {
                Some(
                    put_root_list(
                        t1,
                        parent,
                        items.update(index as int, set_field(items[index as int], key, v)),
                    ),
                )
            } else {
                None
            },
            None => None,
        }
    }
}

/// Setting a field of the selected node: the change is recorded when there is
/// one; nothing changes when there is no such node or field.
pub open spec fn field_set(old: Document, new: Document, key: Seq<char>, v: JsonView, changed: bool) -> bool {
    match old.data@ {
        DocView::Itp(t) => match with_field(t, old.itp_selected_path@, key, v) {
            Some(t2) => {
                &&& changed == (t2 != t)
                &&& palette_edited(old, new, t2)
                &&& keeps_view(old, new)
                &&& new.itp_selected_path@ == old.itp_selected_path@
            },
            None => !changed && new == old,
        },
        _ => !changed && new == old,
    }
}

impl Document {
    /// Sets the value of field `key` of the selected palette node (see
    /// `field_set`). Gives whether the palette changed.
    pub fn itp_set_field(&mut self, key: &str, value: JsonValue) -> (changed: bool)
        requires
            history_wf(old(self).history@),
        ensures
            field_set(*old(self), *final(self), key@, value@, changed),
            history_wf(final(self).history@),
    {
        let len = self.itp_selected_path.len();
        if len == 0 {
            return false;
        }
        let index = self.itp_selected_path[len - 1];
        let parent = copy_path(&self.itp_selected_path, len - 1);
        proof {
            assert(self.itp_selected_path@.drop_last() =~= self.itp_selected_path@.take(len - 1));
            assert(index == self.itp_selected_path@.last());
            assert(parent@ == old(self).itp_selected_path@.drop_last());
        }
        let tree = match &self.data {
            DocumentData::Itp(f) => match root_list_exec(&f.root, &parent) {
                Some((r1, items)) => {
                    proof {
                        lemma_json_views(items@);
                    }
                    if index >= items.len() {
                        return false;
                    }
                    if field_exec(&items[index], key).is_none() {
                        return false;
                    }
                    let node = set_field_exec(&items[index], key, value);
                    let items2 = replace_item(&items, index, node);
                    put_root_list_exec(&r1, &parent, items2)
                },
                None => {
                    return false;
                },
            },
            _ => {
                return false;
            },
        };
        let changed = match &self.data {
            DocumentData::Itp(f) => !json_eq(&f.root, &tree),
            _ => false,
        };
        self.set_tree(tree);
        changed
    }
}

} // verus!
