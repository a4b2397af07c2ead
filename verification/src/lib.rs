//! Subscriber store and scheduled broadcast dispatcher for a notification
//! relay: chats subscribe to recurring live-event announcements, a calendar
//! rule yields the next occurrence, and a dispatcher fans the announcement
//! out to every subscriber with per-recipient failure isolation.

pub mod calendar;
pub mod chat;
pub mod codec;
pub mod dispatcher;
pub mod store;
