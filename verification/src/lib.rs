//! Verified core of a small collection of networking and game programs:
//! a tic-tac-toe referee, a name-indexed store of callables, and the request
//! handling logic of two toy HTTP servers.

pub mod tictactoe;
pub mod text;
pub mod seqs;
pub mod storage;
pub mod line;
pub mod header;
pub mod json;
pub mod http;
pub mod server;
