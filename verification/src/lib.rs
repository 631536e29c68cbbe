//! Key-signature engine for a perfect-hash-function generator.
//!
//! Given a list of keywords, the engine manages a sorted set of character
//! positions (`positions`), extracts the characters at those positions into a
//! compact selected-character set per keyword (`keyword`), and detects
//! keywords whose signatures collide under a candidate position set with an
//! open-addressing hash table (`hash_table`).  Keyword lists come with stable
//! merge-sort utilities (`keyword_list`), and textual position specifications
//! such as `$,1,2,4,6-10` are read by a small parser (`parser`).

pub mod hash_table;
pub mod keyword;
pub mod keyword_list;
pub mod parser;
pub mod positions;
