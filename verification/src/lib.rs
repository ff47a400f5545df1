pub mod file_system;
