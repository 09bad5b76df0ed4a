pub mod tokensink;
