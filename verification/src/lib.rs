pub mod block;
pub mod grid;
pub mod seqs;
pub mod space;
