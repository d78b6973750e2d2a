use vstd::prelude::*;
use std::collections::HashMap;

verus! {

broadcast use vstd::std_specs::hash::group_hash_axioms;

/// A filesystem change reported to the announce loop.
pub enum ObservationEvent {
    /// The named file appeared.
    Created(String),
    /// The named file was deleted.
    Deleted(String),
    /// The named file changed.
    Modified(String),
    /// The file was moved from one name to another.
    Move {
        /// The old name.
        from: String,
        /// The new name.
        to: String,
    },
}

/// The kinds of raw events the watcher distinguishes.
pub enum EventType {
    /// A file was modified.
    Modify,
    /// A file was moved; the event has two halves tied by a cookie.
    Moved,
    /// A file was created.
    Created,
    /// A file was deleted.
    Deleted,
    /// An event of no mapped kind.
    Unknown,
}

/// One raw file event.
pub struct FileEvent {
    /// The name of the file the event concerns.
    pub file_name: String,
    /// The kind of the event.
    pub event_type: EventType,
    /// The cookie tying the two halves of a move together.
    pub cookie: u32,
}

/// Pairs up the halves of a move: the first half is remembered under its
/// cookie; the second half completes it into a move event.
pub fn process_move_event(cookie_map: &mut HashMap<u32, String>, event: FileEvent) -> (r: Option<
    ObservationEvent,
>)
    ensures
        old(cookie_map)@.contains_key(event.cookie) ==> ({
            &&& r matches Some(ObservationEvent::Move { from, to }) && from == old(
                cookie_map,
            )@[event.cookie] && to == event.file_name
            &&& final(cookie_map)@ == old(cookie_map)@.remove(event.cookie)
        }),
        !old(cookie_map)@.contains_key(event.cookie) ==> ({
            &&& r is None
            &&& final(cookie_map)@ == old(cookie_map)@.insert(event.cookie, event.file_name)
        }),
{
    if cookie_map.contains_key(&event.cookie) {
        match cookie_map.remove(&event.cookie) {
            Some(from) => Some(ObservationEvent::Move { from, to: event.file_name }),
            None => {
                proof {
                    assert(false);
                }
                None
            }
        }
    } else {
        cookie_map.insert(event.cookie, event.file_name);
        None
    }
}

} // verus!
