//! A Kanban backlog: cards, notes, links, projects and their audit trail,
//! the rules that move a card across the board, and the texts that show it.

pub mod asking;
pub mod backlog;
pub mod board;
pub mod bringing;
pub mod card;
pub mod changing;
pub mod commits;
pub mod condition;
pub mod drawing;
pub mod duration;
pub mod edit;
pub mod events;
pub mod filing;
pub mod filling;
pub mod fit;
pub mod fold;
pub mod import;
pub mod jot;
pub mod keeping;
pub mod layout;
pub mod lifecycle;
pub mod links;
pub mod notes;
pub mod number;
pub mod order;
pub mod paint;
pub mod path;
pub mod places;
pub mod print;
pub mod project;
pub mod prompt;
pub mod reading;
pub mod refusal;
pub mod refusing;
pub mod registry;
pub mod relate;
pub mod schema;
pub mod select;
pub mod serve;
pub mod status;
pub mod store;
pub mod sweep;
pub mod tags;
pub mod tally;
pub mod telling;
pub mod tending;
pub mod text;
pub mod tint;
pub mod view;
pub mod wording;
pub mod writing;
