use aurora_tlk_explorer::numtext::{decimal, hex, parse_u32};
use aurora_tlk_explorer::session::{
    active_after_remove, close_choice, close_request, quit_request, CloseChoice, CloseStep, PendingClose,
};

#[test]
fn the_active_document_stays_within_the_remaining_ones() {
    assert_eq!(active_after_remove(Some(3), 3), Some(2));
    assert_eq!(active_after_remove(Some(1), 3), Some(1));
    assert_eq!(active_after_remove(None, 2), Some(0));
    assert_eq!(active_after_remove(Some(0), 0), None);
}

#[test]
fn closing_asks_only_about_unsaved_changes() {
    assert_eq!(close_request(2, Some(true)), CloseStep::Ask(PendingClose { index: 2, quitting: false }));
    assert_eq!(close_request(2, Some(false)), CloseStep::Remove(2));
    assert_eq!(close_request(9, None), CloseStep::Remove(9));
}

#[test]
fn quitting_asks_about_the_first_unsaved_document() {
    assert_eq!(quit_request(&vec![false, true, true]), CloseStep::Ask(PendingClose { index: 1, quitting: true }));
    assert_eq!(quit_request(&vec![false, false]), CloseStep::Exit);
}

#[test]
fn answers_about_unsaved_changes() {
    let closing = PendingClose { index: 4, quitting: false };
    let quitting = PendingClose { index: 4, quitting: true };
    assert_eq!(close_choice(closing, CloseChoice::Cancel, false), CloseStep::Cancel);
    assert_eq!(close_choice(closing, CloseChoice::Save, false), CloseStep::Stay);
    assert_eq!(close_choice(closing, CloseChoice::Save, true), CloseStep::Remove(4));
    assert_eq!(close_choice(quitting, CloseChoice::Save, true), CloseStep::ContinueQuit);
    assert_eq!(close_choice(closing, CloseChoice::Discard, false), CloseStep::Remove(4));
    assert_eq!(close_choice(quitting, CloseChoice::Discard, false), CloseStep::DiscardAndQuit(4));
}

#[test]
fn numbers_as_text() {
    assert_eq!(decimal(0), "0");
    assert_eq!(decimal(1234567890123), "1234567890123");
    assert_eq!(hex(255), "0xff");
    assert_eq!(parse_u32("+17", 10), Some(17));
    assert_eq!(parse_u32("4294967295", 10), Some(u32::MAX));
    assert_eq!(parse_u32("4294967296", 10), None);
    assert_eq!(parse_u32("FF", 16), Some(255));
    assert_eq!(parse_u32("", 10), None);
    assert_eq!(parse_u32("-1", 10), None);
}
