//! Log-mining analytics: reconstructs user sessions ("requests") from raw
//! application-server log lines, derives per-user presence intervals, and
//! detects convocations — time windows in which several users were
//! simultaneously and verifiably active in one game.

pub mod activeusers;
pub mod activity;
pub mod bytes;
pub mod convoker;
pub mod order;
pub mod globalpresence;
pub mod lex;
pub mod logutils;
pub mod ordmap;
pub mod parse;
pub mod presence;
pub mod request;
pub mod spanset;
