//! Collections.

pub mod bloom_filter;
pub mod deque;
pub mod doubly_linked_list;
pub mod hash_map;
pub mod queue;
pub mod set;
pub mod singly_linked_list;
pub mod skip_list;
pub mod stack;

pub use bloom_filter::BloomFilter;
pub use deque::Deque;
pub use doubly_linked_list::DoublyLinkedList;
pub use hash_map::HashMap;
pub use queue::Queue;
pub use set::HashSet;
pub use singly_linked_list::SinglyLinkedList;
pub use skip_list::SkipList;
pub use stack::Stack;
