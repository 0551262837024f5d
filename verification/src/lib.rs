//! A small table of rows in one file of fixed-size pages.
//!
//! A row has a 32-bit key, a user name and an e-mail address, and a fixed
//! width on disk (`row`). The rows of a table lie in one leaf page, ordered by
//! their keys (`btree`, `search`). The pager keeps the pages of the file in
//! memory and writes them back when the table is closed (`pager`). A cursor
//! walks the leaf, finds the place of a key and inserts a row there (`table`).
//! The statements of the command line are read and carried out in
//! `statement`.
pub mod btree;
pub mod codec;
pub mod pager;
pub mod row;
pub mod search;
pub mod statement;
pub mod table;
