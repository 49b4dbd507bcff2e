pub mod media_manager;
