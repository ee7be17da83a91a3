use aurora_tlk_explorer::itp::{ItpFile, JsonNumber, JsonValue};
use aurora_tlk_explorer::model::{Document, DocumentData};
use aurora_tlk_explorer::palette::{json_eq, label_of, next_id};

fn s(text: &str) -> JsonValue {
    JsonValue::String(text.to_string())
}

fn n(value: u64) -> JsonValue {
    JsonValue::Number(JsonNumber::PosInt(value))
}

fn obj(members: Vec<(&str, JsonValue)>) -> JsonValue {
    JsonValue::Object(members.into_iter().map(|(k, v)| (k.to_string(), v)).collect())
}

fn field(kind: &str, value: JsonValue) -> JsonValue {
    obj(vec![("type", s(kind)), ("value", value)])
}

fn palette(nodes: Vec<JsonValue>) -> JsonValue {
    obj(vec![("MAIN", field("list", JsonValue::Array(nodes))), ("__data_type", s("ITP "))])
}

fn main_nodes(document: &Document) -> Vec<JsonValue> {
    match &document.data {
        DocumentData::Itp(itp) => match &itp.root {
            JsonValue::Object(members) => {
                let main = &members.iter().find(|(k, _)| k == "MAIN").unwrap().1;
                match main {
                    JsonValue::Object(fields) => match &fields.iter().find(|(k, _)| k == "value").unwrap().1 {
                        JsonValue::Array(items) => items.iter().map(|v| v.duplicate()).collect(),
                        _ => unreachable!(),
                    },
                    _ => unreachable!(),
                }
            },
            _ => unreachable!(),
        },
        _ => unreachable!(),
    }
}

fn list_of(node: &JsonValue) -> Vec<JsonValue> {
    match node {
        JsonValue::Object(members) => match &members.iter().find(|(k, _)| k == "LIST").unwrap().1 {
            JsonValue::Object(fields) => match &fields.iter().find(|(k, _)| k == "value").unwrap().1 {
                JsonValue::Array(items) => items.iter().map(|v| v.duplicate()).collect(),
                _ => unreachable!(),
            },
            _ => unreachable!(),
        },
        _ => unreachable!(),
    }
}

fn document(nodes: Vec<JsonValue>) -> Document {
    Document::open(DocumentData::Itp(ItpFile { root: palette(nodes) }))
}

#[test]
fn labels_prefer_names_then_string_references() {
    assert_eq!(label_of(&obj(vec![("DELETE_ME", field("cexostring", s("Cat")))])), "Cat");
    assert_eq!(
        label_of(&obj(vec![("DELETE_ME", field("cexostring", s(""))), ("NAME", field("cexostring", s("N")))])),
        "N"
    );
    assert_eq!(label_of(&obj(vec![("RESREF", field("resref", s("r1")))])), "r1");
    assert_eq!(label_of(&obj(vec![("STRREF", field("dword", n(5)))])), "StrRef 5");
    assert_eq!(label_of(&obj(vec![])), "Palette node");
}

#[test]
fn the_next_id_is_the_smallest_unused() {
    let nested = obj(vec![("ID", field("byte", n(3))), ("LIST", field("list", JsonValue::Array(vec![obj(vec![("ID", field("byte", n(1)))])])))]);
    let root = palette(vec![obj(vec![("ID", field("byte", n(0)))]), nested]);
    assert_eq!(next_id(&root), 2);
    assert_eq!(next_id(&palette(vec![])), 0);
}

#[test]
fn categories_and_entries_are_added_and_undone() {
    let mut doc = document(vec![]);
    assert!(doc.itp_add_root_category());
    assert_eq!(doc.itp_selected_path, vec![0]);
    assert_eq!(main_nodes(&doc).len(), 1);
    assert!(doc.itp_add_entry());
    let category = &main_nodes(&doc)[0];
    assert_eq!(list_of(category).len(), 1);
    assert_eq!(label_of(&list_of(category)[0]), "New entry");
    assert!(doc.dirty);
    assert!(doc.undo());
    assert_eq!(list_of(&main_nodes(&doc)[0]).len(), 0);
}

#[test]
fn terminal_categories_get_free_ids() {
    let mut doc = document(vec![obj(vec![("ID", field("byte", n(0)))])]);
    assert!(doc.itp_add_terminal(vec![]));
    assert_eq!(doc.itp_selected_path, vec![1]);
    let added = &main_nodes(&doc)[1];
    assert!(json_eq(added, &obj(vec![
        ("DELETE_ME", field("cexostring", s("New terminal category"))),
        ("ID", field("byte", n(1))),
        ("STRREF", field("dword", n(0))),
        ("__struct_id", n(1)),
    ])));
}

#[test]
fn a_node_without_a_list_gets_one() {
    let mut doc = document(vec![obj(vec![("NAME", field("cexostring", s("leaf")))])]);
    doc.itp_selected_path = vec![0];
    assert!(doc.itp_add_category());
    assert_eq!(list_of(&main_nodes(&doc)[0]).len(), 1);
    assert_eq!(doc.itp_selected_path, vec![0]);
}

#[test]
fn deleting_removes_the_selected_node() {
    let mut doc = document(vec![obj(vec![("NAME", field("cexostring", s("a")))]), obj(vec![("NAME", field("cexostring", s("b")))])]);
    doc.itp_selected_path = vec![0];
    assert!(doc.itp_delete_node());
    assert!(doc.itp_selected_path.is_empty());
    let nodes = main_nodes(&doc);
    assert_eq!(nodes.len(), 1);
    assert_eq!(label_of(&nodes[0]), "b");
    assert!(!doc.itp_delete_node());
    doc.itp_selected_path = vec![5];
    assert!(!doc.itp_delete_node());
}

#[test]
fn fields_of_the_selected_node_are_set() {
    let mut doc = document(vec![obj(vec![("NAME", field("cexostring", s("old")))])]);
    assert!(!doc.itp_set_field("NAME", s("new")));
    doc.itp_selected_path = vec![0];
    assert!(doc.itp_set_field("NAME", s("new")));
    assert_eq!(label_of(&main_nodes(&doc)[0]), "new");
    assert!(!doc.itp_set_field("NAME", s("new")));
    assert!(!doc.itp_set_field("MISSING", s("x")));
    assert!(doc.undo());
    assert_eq!(label_of(&main_nodes(&doc)[0]), "old");
}
