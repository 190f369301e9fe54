pub mod db;
pub mod edge_db_dispenser;
pub mod safes_json;
