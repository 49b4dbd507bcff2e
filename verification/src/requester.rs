pub mod requester;
