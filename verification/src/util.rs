pub mod date;
