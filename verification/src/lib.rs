//! Small exercises with verified contracts: a doubly linked list kept in an
//! arena and the commands of an interactive session on it, integer
//! arithmetic, a menu table, the rules of a guessing game and the text of
//! error log entries.

pub mod basiccalculator;
pub mod errorlog;
pub mod guessnumber;
pub mod linkedlist;
pub mod listcommands;
pub mod menu;
