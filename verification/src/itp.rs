//! Item palettes (ITP): the GFF tree in its JSON form, and its validation.
use vstd::prelude::*;

verus! {

/// A JSON number as the GFF converter writes it. A float is kept as its bits.
#[derive(Clone, Copy, Debug, PartialEq, Eq, Structural)]
pub enum JsonNumber {
    PosInt(u64),
    NegInt(i64),
    Float(u64),
}

/// A JSON value; an object keeps its members in order.
#[derive(Debug, PartialEq)]
pub enum JsonValue {
    Null,
    Bool(bool),
    Number(JsonNumber),
    String(String),
    Array(Vec<JsonValue>),
    Object(Vec<(String, JsonValue)>),
}

/// The mathematical content of a JSON value.
pub enum JsonView {
    Null,
    Bool(bool),
    Number(JsonNumber),
    String(Seq<char>),
    Array(Seq<JsonView>),
    Object(Seq<(Seq<char>, JsonView)>),
}

pub open spec fn json_view(v: JsonValue) -> JsonView
    decreases v,
{
    match v {
        JsonValue::Null => JsonView::Null,
        JsonValue::Bool(b) => JsonView::Bool(b),
        JsonValue::Number(n) => JsonView::Number(n),
        JsonValue::String(s) => JsonView::String(s@),
        JsonValue::Array(items) => JsonView::Array(json_views(items@)),
        JsonValue::Object(members) => JsonView::Object(member_views(members@)),
    }
}

pub open spec fn json_views(s: Seq<JsonValue>) -> Seq<JsonView>
    decreases s,
{
    if s.len() == 0 {
        seq![]
    } else {
        json_views(s.drop_last()).push(json_view(s.last()))
    }
}

pub open spec fn member_views(s: Seq<(String, JsonValue)>) -> Seq<(Seq<char>, JsonView)>
    decreases s,
{
    if s.len() == 0 {
        seq![]
    } else {
        member_views(s.drop_last()).push((s.last().0@, json_view(s.last().1)))
    }
}

impl View for JsonValue {
    type V = JsonView;

    open spec fn view(&self) -> JsonView {
        json_view(*self)
    }
}

} // verus!

verus! {

/// Whether two strings are equal.
pub fn str_eq(a: &str, b: &str) -> (r: bool)
    ensures
        r == (a@ == b@),
{
    let x = crate::text::chars_of(a);
    let y = crate::text::chars_of(b);
    if x.len() != y.len() {
        return false;
    }
    let mut i: usize = 0;
    while i < x.len()
        invariant
            x@ == a@,
            y@ == b@,
            x@.len() == y@.len(),
            i <= x@.len(),
            forall|j: int| 0 <= j < i ==> x@[j] == y@[j],
        decreases x@.len() - i,
    {
        if x[i] != y[i] {
            return false;
        }
        i = i + 1;
    }
    assert(x@ =~= y@);
    true
}

impl JsonValue {
    /// A copy of the value.
    #[verifier::loop_isolation(false)]
    pub fn duplicate(&self) -> (r: JsonValue)
        ensures
            r@ == self@,
        decreases self,
    {
        match self {
            JsonValue::Null => JsonValue::Null,
            JsonValue::Bool(b) => JsonValue::Bool(*b),
            JsonValue::Number(n) => JsonValue::Number(*n),
            JsonValue::String(s) => JsonValue::String(s.clone()),
            JsonValue::Array(items) => {
                let mut out: Vec<JsonValue> = Vec::new();
                let mut i: usize = 0;
                while i < items.len()
                    invariant
                        i <= items@.len(),
                        json_views(out@) == json_views(items@.take(i as int)),
                    decreases items@.len() - i,
                {
                    let x = items[i].duplicate();
                    let ghost before = out@;
                    out.push(x);
                    assert(out@.drop_last() =~= before);
                    assert(items@.take(i + 1).drop_last() =~= items@.take(i as int));
                    i = i + 1;
                }
                assert(items@.take(items@.len() as int) =~= items@);
                JsonValue::Array(out)
            },
            JsonValue::Object(members) => {
                let mut out: Vec<(String, JsonValue)> = Vec::new();
                let mut i: usize = 0;
                while i < members.len()
                    invariant
                        i <= members@.len(),
                        member_views(out@) == member_views(members@.take(i as int)),
                    decreases members@.len() - i,
                {
                    let k = members[i].0.clone();
                    let x = members[i].1.duplicate();
                    let ghost before = out@;
                    out.push((k, x));
                    assert(out@.drop_last() =~= before);
                    assert(members@.take(i + 1).drop_last() =~= members@.take(i as int));
                    i = i + 1;
                }
                assert(members@.take(members@.len() as int) =~= members@);
                JsonValue::Object(out)
            },
        }
    }
}

} // verus!

verus! {

/// Why a palette tree is not a valid ITP palette.
#[derive(Clone, Copy, Debug, PartialEq, Eq)]
pub enum ItpError {
    NotItp,
    NoMainTree,
    TooDeep,
    TooLarge,
    TooManyValues,
    ByteRange,
    WordRange,
    DwordRange,
    CharRange,
    ShortRange,
    IntRange,
    ListNotArray,
    TextNotString,
}

pub const MAX_DEPTH: usize = 128;

pub const MAX_VALUES: usize = 1000000;

/// The first member named `key`.
pub open spec fn lookup(members: Seq<(String, JsonValue)>, key: Seq<char>) -> Option<JsonValue>
    decreases members.len(),
{
    if members.len() == 0 {
        None
    } else if members[0].0@ == key {
        Some(members[0].1)
    } else {
        lookup(members.drop_first(), key)
    }
}

pub open spec fn as_u64(v: JsonValue) -> Option<u64> {
    match v {
        JsonValue::Number(JsonNumber::PosInt(n)) => Some(n),
        _ => None,
    }
}

pub open spec fn as_i64(v: JsonValue) -> Option<i64> {
    match v {
        JsonValue::Number(JsonNumber::PosInt(n)) => if n <= i64::MAX {
            Some(n as i64)
        } else {
            None
        },
        JsonValue::Number(JsonNumber::NegInt(n)) => Some(n),
        _ => None,
    }
}

/// The range check of a typed GFF field with the given value.
pub open spec fn check_kind(kind: Seq<char>, v: JsonValue) -> Result<(), ItpError> {
    if kind == "byte"@ && (as_u64(v) is None || as_u64(v)->0 > 255) {
        Err(ItpError::ByteRange)
    } else if kind == "word"@ && (as_u64(v) is None || as_u64(v)->0 > 65535) {
        Err(ItpError::WordRange)
    } else if kind == "dword"@ && (as_u64(v) is None || as_u64(v)->0 > u32::MAX) {
        Err(ItpError::DwordRange)
    } else if kind == "char"@ && (as_i64(v) is None || as_i64(v)->0 < -128 || as_i64(v)->0 > 127) {
        Err(ItpError::CharRange)
    } else if kind == "short"@ && (as_i64(v) is None || as_i64(v)->0 < -32768 || as_i64(v)->0
        > 32767) {
        Err(ItpError::ShortRange)
    } else if kind == "int"@ && (as_i64(v) is None || as_i64(v)->0 < i32::MIN || as_i64(v)->0
        > i32::MAX) {
        Err(ItpError::IntRange)
    } else if kind == "list"@ && !(v is Array) {
        Err(ItpError::ListNotArray)
    } else if (kind == "cexostring"@ || kind == "resref"@) && !(v is String) {
        Err(ItpError::TextNotString)
    } else {
        Ok(())
    }
}

/// An object with a string `type` member and a `value` member is a typed field,
/// whose value must fit its type.
pub open spec fn check_field(members: Seq<(String, JsonValue)>) -> Result<(), ItpError> {
    match (lookup(members, "type"@), lookup(members, "value"@)) {
        (Some(JsonValue::String(kind)), Some(v)) => check_kind(kind@, v),
        _ => Ok(()),
    }
}

/// Validation of a value at `depth` after `nodes` values: the number of values
/// counted afterwards, or the first problem in document order.
pub open spec fn validate_value(v: JsonValue, depth: nat, nodes: nat) -> Result<nat, ItpError>
    decreases v,
{
    if depth > MAX_DEPTH {
        Err(ItpError::TooDeep)
    } else if nodes + 1 > usize::MAX {
        Err(ItpError::TooLarge)
    } else if nodes + 1 > MAX_VALUES {
        Err(ItpError::TooManyValues)
    } else {
        match v {
            JsonValue::Array(items) => validate_items(items@, depth + 1, nodes + 1),
            JsonValue::Object(members) => match check_field(members@) {
                Err(e) => Err(e),
                Ok(_) => validate_members(members@, depth + 1, nodes + 1),
            },
            _ => Ok(nodes + 1),
        }
    }
}

pub open spec fn validate_items(s: Seq<JsonValue>, depth: nat, nodes: nat) -> Result<nat, ItpError>
    decreases s,
{
    if s.len() == 0 {
        Ok(nodes)
    } else {
        match validate_items(s.drop_last(), depth, nodes) {
            Err(e) => Err(e),
            Ok(n) => validate_value(s.last(), depth, n),
        }
    }
}

pub open spec fn validate_members(s: Seq<(String, JsonValue)>, depth: nat, nodes: nat) -> Result<
    nat,
    ItpError,
>
    decreases s,
{
    if s.len() == 0 {
        Ok(nodes)
    } else {
        match validate_members(s.drop_last(), depth, nodes) {
            Err(e) => Err(e),
            Ok(n) => validate_value(s.last().1, depth, n),
        }
    }
}

pub open spec fn is_main_tree(root: JsonValue) -> bool {
    match root {
        JsonValue::Object(members) => match lookup(members@, "MAIN"@) {
            Some(JsonValue::Object(main)) => match lookup(main@, "value"@) {
                Some(JsonValue::Array(_)) => true,
                _ => false,
            },
            _ => false,
        },
        _ => false,
    }
}

pub open spec fn is_itp_type(root: JsonValue) -> bool {
    match root {
        JsonValue::Object(members) => match lookup(members@, "__data_type"@) {
            Some(JsonValue::String(s)) => s@ == "ITP "@,
            _ => false,
        },
        _ => false,
    }
}

/// A palette names its GFF type `ITP `, has a `MAIN` list, and every value
/// passes `validate_value`.
pub open spec fn validate_spec(root: JsonValue) -> Result<(), ItpError> {
    if !is_itp_type(root) {
        Err(ItpError::NotItp)
    } else if !is_main_tree(root) {
        Err(ItpError::NoMainTree)
    } else {
        match validate_value(root, 0, 0) {
            Err(e) => Err(e),
            Ok(_) => Ok(()),
        }
    }
}

/// The first member named `key`.
pub fn get_member<'a>(members: &'a Vec<(String, JsonValue)>, key: &str) -> (r: Option<&'a JsonValue>)
    ensures
        r matches Some(v) ==> lookup(members@, key@) == Some(*v),
        r is None ==> lookup(members@, key@) is None,
{
    let mut i: usize = 0;
    assert(members@.skip(0) =~= members@);
    while i < members.len()
        invariant
            i <= members@.len(),
            lookup(members@, key@) == lookup(members@.skip(i as int), key@),
        decreases members@.len() - i,
    {
        assert(members@.skip(i as int)[0] == members@[i as int]);
        if str_eq(members[i].0.as_str(), key) {
            return Some(&members[i].1);
        }
        assert(members@.skip(i as int).drop_first() =~= members@.skip(i + 1));
        i = i + 1;
    }
    None
}

fn json_as_u64(v: &JsonValue) -> (r: Option<u64>)
    ensures
        r == as_u64(*v),
{
    match v {
        JsonValue::Number(JsonNumber::PosInt(n)) => Some(*n),
        _ => None,
    }
}

fn json_as_i64(v: &JsonValue) -> (r: Option<i64>)
    ensures
        r == as_i64(*v),
{
    match v {
        JsonValue::Number(JsonNumber::PosInt(n)) => if *n <= 0x7fff_ffff_ffff_ffff {
            Some(*n as i64)
        } else {
            None
        },
        JsonValue::Number(JsonNumber::NegInt(n)) => Some(*n),
        _ => None,
    }
}

fn check_kind_exec(kind: &String, v: &JsonValue) -> (r: Result<(), ItpError>)
    ensures
        r == check_kind(kind@, *v),
{
    let k = kind.as_str();
    let u = json_as_u64(v);
    let i = json_as_i64(v);
    if str_eq(k, "byte") && (u.is_none() || u.unwrap() > 255) {
        Err(ItpError::ByteRange)
    } else if str_eq(k, "word") && (u.is_none() || u.unwrap() > 65535) {
        Err(ItpError::WordRange)
    } else if str_eq(k, "dword") && (u.is_none() || u.unwrap() > 0xffff_ffff) {
        Err(ItpError::DwordRange)
    } else if str_eq(k, "char") && (i.is_none() || i.unwrap() < -128 || i.unwrap() > 127) {
        Err(ItpError::CharRange)
    } else if str_eq(k, "short") && (i.is_none() || i.unwrap() < -32768 || i.unwrap() > 32767) {
        Err(ItpError::ShortRange)
    } else if str_eq(k, "int") && (i.is_none() || i.unwrap() < -2147483648 || i.unwrap()
        > 2147483647) {
        Err(ItpError::IntRange)
    } else if str_eq(k, "list") && !matches!(v, JsonValue::Array(_)) {
        Err(ItpError::ListNotArray)
    } else if (str_eq(k, "cexostring") || str_eq(k, "resref")) && !matches!(v, JsonValue::String(_)) {
        Err(ItpError::TextNotString)
    } else {
        Ok(())
    }
}

fn check_field_exec(members: &Vec<(String, JsonValue)>) -> (r: Result<(), ItpError>)
    ensures
        r == check_field(members@),
{
    match (get_member(members, "type"), get_member(members, "value")) {
        (Some(JsonValue::String(kind)), Some(v)) => check_kind_exec(kind, v),
        _ => Ok(()),
    }
}

/// Validates `value` at `depth`, counting values in `nodes`.
#[verifier::loop_isolation(false)]
pub fn validate_field(value: &JsonValue, depth: usize, nodes: &mut usize) -> (r: Result<
    (),
    ItpError,
>)
    ensures
        r is Ok ==> validate_value(*value, depth as nat, *old(nodes) as nat) == Ok::<nat, ItpError>(
            *final(nodes) as nat,
        ),
        r matches Err(e) ==> validate_value(*value, depth as nat, *old(nodes) as nat) == Err::<
            nat,
            ItpError,
        >(e),
    decreases value,
{
    if depth > MAX_DEPTH {
        return Err(ItpError::TooDeep);
    }
    if *nodes == usize::MAX {
        return Err(ItpError::TooLarge);
    }
    *nodes = *nodes + 1;
    if *nodes > MAX_VALUES {
        return Err(ItpError::TooManyValues);
    }
    let start = *nodes;
    match value {
        JsonValue::Array(items) => {
            let mut i: usize = 0;
            assert(items@.take(0) =~= Seq::<JsonValue>::empty());
            while i < items.len()
                invariant
                    i <= items@.len(),
                    depth <= MAX_DEPTH,
                    validate_items(items@.take(i as int), (depth + 1) as nat, start as nat) == Ok::<
                        nat,
                        ItpError,
                    >(*nodes as nat),
                decreases items@.len() - i,
            {
                assert(items@.take(i + 1).drop_last() =~= items@.take(i as int));
                match validate_field(&items[i], depth + 1, nodes) {
                    Err(e) => {
                        proof {
                            lemma_items_err(items@, (depth + 1) as nat, start as nat, i + 1);
                        }
                        return Err(e);
                    },
                    Ok(()) => {},
                }
                i = i + 1;
            }
            assert(items@.take(items@.len() as int) =~= items@);
            Ok(())
        },
        JsonValue::Object(members) => {
            match check_field_exec(members) {
                Err(e) => {
                    return Err(e);
                },
                Ok(()) => {},
            }
            let mut i: usize = 0;
            assert(members@.take(0) =~= Seq::<(String, JsonValue)>::empty());
            while i < members.len()
                invariant
                    i <= members@.len(),
                    depth <= MAX_DEPTH,
                    validate_members(members@.take(i as int), (depth + 1) as nat, start as nat)
                        == Ok::<nat, ItpError>(*nodes as nat),
                decreases members@.len() - i,
            {
                assert(members@.take(i + 1).drop_last() =~= members@.take(i as int));
                match validate_field(&members[i].1, depth + 1, nodes) {
                    Err(e) => {
                        proof {
                            lemma_members_err(members@, (depth + 1) as nat, start as nat, i + 1);
                        }
                        return Err(e);
                    },
                    Ok(()) => {},
                }
                i = i + 1;
            }
            assert(members@.take(members@.len() as int) =~= members@);
            Ok(())
        },
        _ => Ok(()),
    }
}

pub proof fn lemma_items_err(s: Seq<JsonValue>, depth: nat, nodes: nat, k: int)
    requires
        0 <= k <= s.len(),
        validate_items(s.take(k), depth, nodes) is Err,
    ensures
        validate_items(s, depth, nodes) == validate_items(s.take(k), depth, nodes),
    decreases s.len(),
{
    if k < s.len() {
        assert(s.drop_last().take(k) =~= s.take(k));
        lemma_items_err(s.drop_last(), depth, nodes, k);
    } else {
        assert(s.take(k) =~= s);
    }
}

pub proof fn lemma_members_err(s: Seq<(String, JsonValue)>, depth: nat, nodes: nat, k: int)
    requires
        0 <= k <= s.len(),
        validate_members(s.take(k), depth, nodes) is Err,
    ensures
        validate_members(s, depth, nodes) == validate_members(s.take(k), depth, nodes),
    decreases s.len(),
{
    if k < s.len() {
        assert(s.drop_last().take(k) =~= s.take(k));
        lemma_members_err(s.drop_last(), depth, nodes, k);
    } else {
        assert(s.take(k) =~= s);
    }
}

/// An item palette: the GFF tree that the converter gives as JSON.
#[derive(Debug, PartialEq)]
pub struct ItpFile {
    pub root: JsonValue,
}

impl ItpFile {
    /// Checks that the tree is a well-formed palette (see `validate_spec`).
    pub fn validate(&self) -> (r: Result<(), ItpError>)
        ensures
            r == validate_spec(self.root),
    {
        let is_type = match &self.root {
            JsonValue::Object(members) => match get_member(members, "__data_type") {
                Some(JsonValue::String(s)) => str_eq(s.as_str(), "ITP "),
                _ => false,
            },
            _ => false,
        };
        if !is_type {
            return Err(ItpError::NotItp);
        }
        let has_main = match &self.root {
            JsonValue::Object(members) => match get_member(members, "MAIN") {
                Some(JsonValue::Object(main)) => match get_member(main, "value") {
                    Some(JsonValue::Array(_)) => true,
                    _ => false,
                },
                _ => false,
            },
            _ => false,
        };
        if !has_main {
            return Err(ItpError::NoMainTree);
        }
        let mut nodes: usize = 0;
        match validate_field(&self.root, 0, &mut nodes) {
            Err(e) => Err(e),
            Ok(()) => Ok(()),
        }
    }

    /// A copy of the palette.
    pub fn duplicate(&self) -> (r: ItpFile)
        ensures
            r.root@ == self.root@,
    {
        ItpFile { root: self.root.duplicate() }
    }
}

} // verus!
