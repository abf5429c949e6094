//! A catalog of vocabulary words, each tagged with a topic and a difficulty,
//! with verified queries over it: a random pick under filters, the sorted
//! list of topics, and the list of difficulties in their preferred order.

pub mod catalog;
pub mod laws;
pub mod order;
pub mod text;
