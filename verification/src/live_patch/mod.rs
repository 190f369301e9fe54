pub mod cast_interface;
