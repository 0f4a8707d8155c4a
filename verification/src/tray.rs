//! System tray: what its menu asks for.

use crate::text::same_text;
use vstd::prelude::*;

verus! {

#[derive(Clone, Copy, Debug, PartialEq, Eq, Structural)]
pub enum TrayMsg {
    Show,
    Rescan,
    Quit,
}

/// The message of a menu item, told by its identifier; none for an item that the
/// tray does not have.
pub open spec fn message_of(
    id: Seq<char>,
    show: Seq<char>,
    rescan: Seq<char>,
    quit: Seq<char>,
) -> Option<TrayMsg> {
    if id == show {
        Some(TrayMsg::Show)
    } else if id == rescan {
        Some(TrayMsg::Rescan)
    } else if id == quit {
        Some(TrayMsg::Quit)
    } else {
        None
    }
}

/// What a click on a menu item asks for.
pub fn menu_message(id: &str, show: &str, rescan: &str, quit: &str) -> (r: Option<TrayMsg>)
    ensures
        r == message_of(id@, show@, rescan@, quit@),
{
    if same_text(id, show) {
        Some(TrayMsg::Show)
    } else if same_text(id, rescan) {
        Some(TrayMsg::Rescan)
    } else if same_text(id, quit) {
        Some(TrayMsg::Quit)
    } else {
        None
    }
}

/// Each item of the menu asks for its own message, as long as their identifiers
/// differ, and nothing else asks for any.
pub proof fn law_menu_items_have_their_message(
    id: Seq<char>,
    show: Seq<char>,
    rescan: Seq<char>,
    quit: Seq<char>,
)
    requires
        show != rescan,
        show != quit,
        rescan != quit,
    ensures
        message_of(id, show, rescan, quit) == Some(TrayMsg::Show) <==> id == show,
        message_of(id, show, rescan, quit) == Some(TrayMsg::Rescan) <==> id == rescan,
        message_of(id, show, rescan, quit) == Some(TrayMsg::Quit) <==> id == quit,
{
}

}
