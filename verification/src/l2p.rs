pub mod l2p;
