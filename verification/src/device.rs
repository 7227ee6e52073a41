pub mod address;
